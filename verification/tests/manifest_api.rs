use fortnite_downloader::manifest_api::{EpicManifestResponse, Manifest, ManifestList, Metadata, QueryParam};

fn manifest(uri: &str, params: &[(&str, &str)]) -> Manifest {
    Manifest {
        uri: uri.to_string(),
        query_params: params
            .iter()
            .map(|(n, v)| QueryParam { name: n.to_string(), value: v.to_string() })
            .collect(),
    }
}

fn element(manifests: Vec<Manifest>) -> ManifestList {
    ManifestList {
        app_name: "Fortnite".to_string(),
        label_name: "Live".to_string(),
        build_version: "1.0".to_string(),
        hash: "abc".to_string(),
        use_signed_url: true,
        metadata: Metadata { installation_pool_id: "pool".to_string() },
        manifests,
    }
}

#[test]
fn uri_without_parameters_is_unchanged() {
    let m = manifest("https://host/a.manifest", &[]);
    assert_eq!(m.get_uri(), "https://host/a.manifest");
}

#[test]
fn uri_with_parameters_gets_a_query_string() {
    let m = manifest("https://host/a.manifest", &[("f_token", "xyz"), ("sig", "1")]);
    assert_eq!(m.get_uri(), "https://host/a.manifest?&f_token=xyz&sig=1");
}

#[test]
fn uri_with_one_empty_parameter() {
    let m = manifest("u", &[("", "")]);
    assert_eq!(m.get_uri(), "u?&=");
}

#[test]
fn first_manifest_of_empty_answer_is_none() {
    let r = EpicManifestResponse { elements: vec![] };
    assert_eq!(r.get_first_manifest(), None);
}

#[test]
fn first_manifest_of_element_without_manifests_is_none() {
    let r = EpicManifestResponse { elements: vec![element(vec![]), element(vec![manifest("x", &[])])] };
    assert_eq!(r.get_first_manifest(), None);
}

#[test]
fn first_manifest_is_the_first_of_the_first_element() {
    let r = EpicManifestResponse {
        elements: vec![
            element(vec![manifest("first", &[("k", "v")]), manifest("second", &[])]),
            element(vec![manifest("third", &[])]),
        ],
    };
    assert_eq!(r.get_first_manifest(), Some("first?&k=v".to_string()));
}
