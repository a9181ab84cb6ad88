use vstd::prelude::*;
use crate::text::{push_char, push_text};

verus! {

/// Catalog item of the game in the launcher service.
pub const CATALOG_ITEM: &'static str = "4fe75bbc5a674f4f9b356b5c90567da5";

/// Endpoint that lists the live manifests of the game for Windows.
pub const EPIC_MANIFEST_API: &'static str = "https://launcher-public-service-prod06.ol.epicgames.com/launcher/api/public/assets/v2/platform/Windows/namespace/fn/catalogItem/4fe75bbc5a674f4f9b356b5c90567da5/app/Fortnite/label/Live";

/// Answer of the manifest endpoint: one listing per build element.
#[derive(Default, Debug, Clone, PartialEq)]
pub struct EpicManifestResponse {
    pub elements: Vec<ManifestList>,
}

/// One build element of the answer.
#[derive(Default, Debug, Clone, PartialEq)]
pub struct ManifestList {
    pub app_name: String,
    pub label_name: String,
    pub build_version: String,
    pub hash: String,
    pub use_signed_url: bool,
    pub metadata: Metadata,
    pub manifests: Vec<Manifest>,
}

#[derive(Default, Debug, Clone, PartialEq)]
pub struct Metadata {
    pub installation_pool_id: String,
}

/// A location of the manifest file: its URI and the query parameters that
/// must be appended to it.
#[derive(Default, Debug, Clone, PartialEq)]
pub struct Manifest {
    pub uri: String,
    pub query_params: Vec<QueryParam>,
}

#[derive(Default, Debug, Clone, PartialEq)]
pub struct QueryParam {
    pub name: String,
    pub value: String,
}

/// A query parameter as its name and its value.
pub type QueryParamView = (Seq<char>, Seq<char>);

pub struct ManifestView {
    pub uri: Seq<char>,
    pub query_params: Seq<QueryParamView>,
}

pub struct ManifestListView {
    pub app_name: Seq<char>,
    pub label_name: Seq<char>,
    pub build_version: Seq<char>,
    pub hash: Seq<char>,
    pub use_signed_url: bool,
    pub installation_pool_id: Seq<char>,
    pub manifests: Seq<ManifestView>,
}

impl View for QueryParam {
    type V = QueryParamView;

    open spec fn view(&self) -> QueryParamView {
        (self.name@, self.value@)
    }
}

impl View for Manifest {
    type V = ManifestView;

    open spec fn view(&self) -> ManifestView {
        ManifestView {
            uri: self.uri@,
            query_params: self.query_params@.map_values(|p: QueryParam| p@),
        }
    }
}

impl View for ManifestList {
    type V = ManifestListView;

    open spec fn view(&self) -> ManifestListView {
        ManifestListView {
            app_name: self.app_name@,
            label_name: self.label_name@,
            build_version: self.build_version@,
            hash: self.hash@,
            use_signed_url: self.use_signed_url,
            installation_pool_id: self.metadata.installation_pool_id@,
            manifests: self.manifests@.map_values(|m: Manifest| m@),
        }
    }
}

impl View for EpicManifestResponse {
    type V = Seq<ManifestListView>;

    open spec fn view(&self) -> Seq<ManifestListView> {
        self.elements@.map_values(|e: ManifestList| e@)
    }
}

/// `&name=value` for each parameter, in order.
pub open spec fn query_text(params: Seq<QueryParamView>) -> Seq<char>
    decreases params.len(),
{
    if params.len() == 0 {
        Seq::empty()
    } else {
        let p = params.last();
        query_text(params.drop_last()) + seq!['&'] + p.0 + seq!['='] + p.1
    }
}

/// The full address of a manifest: the URI, then `?` when there are
/// parameters, then every parameter as `&name=value`.
pub open spec fn manifest_uri(m: ManifestView) -> Seq<char> {
    m.uri + (if m.query_params.len() > 0 {
        seq!['?']
    } else {
        Seq::empty()
    }) + query_text(m.query_params)
}

/// The address of the first manifest of the first element, if both exist.
pub open spec fn first_manifest_uri(elements: Seq<ManifestListView>) -> Option<Seq<char>> {
    if elements.len() > 0 && elements[0].manifests.len() > 0 {
        Some(manifest_uri(elements[0].manifests[0]))
    } else {
        None
    }
}

impl EpicManifestResponse {
    /// The address of the first manifest of the first element, or `None`
    /// when there is no element or the first one lists no manifest.
    pub fn get_first_manifest(&self) -> (r: Option<String>)
        ensures
            match r {
                Some(s) => first_manifest_uri(self@) == Some(s@),
                None => first_manifest_uri(self@) is None,
            },
    {
        if self.elements.len() == 0 {
            return None;
        }
        let element = &self.elements[0];
        if element.manifests.len() == 0 {
            return None;
        }
        Some(element.manifests[0].get_uri())
    }
}

impl Manifest {
    /// The URI followed by its query string.
    pub fn get_uri(&self) -> (r: String)
        ensures
            r@ == manifest_uri(self@),
    {
        let mut uri = self.uri.clone();
        let n = self.query_params.len();
        if n > 0 {
            push_char(&mut uri, '?');
        }
        let ghost head = uri@;
        let ghost params = self@.query_params;
        let mut i: usize = 0;
        while i < n
            invariant
                0 <= i <= n,
                n == self.query_params.len(),
                params == self@.query_params,
                params.len() == n,
                uri@ == head + query_text(params.take(i as int)),
            decreases n - i,
        {
            let p = &self.query_params[i];
            push_char(&mut uri, '&');
            push_text(&mut uri, &p.name);
            push_char(&mut uri, '=');
            push_text(&mut uri, &p.value);
            assert(params.take(i + 1).drop_last() =~= params.take(i as int));
            assert(params[i as int] == p@);
            i = i + 1;
        }
        assert(params.take(n as int) =~= params);
        uri
    }
}

/// The text that one parameter adds: `&name=value`.
pub open spec fn param_segment(x: QueryParamView) -> Seq<char> {
    seq!['&'] + x.0 + seq!['='] + x.1
}

/// The number of characters that the parameters add together.
pub open spec fn params_len(p: Seq<QueryParamView>) -> int
    decreases p.len(),
{
    if p.len() == 0 {
        0
    } else {
        params_len(p.drop_last()) + p.last().0.len() + p.last().1.len() + 2
    }
}

proof fn lemma_query_text_len(p: Seq<QueryParamView>)
    ensures
        query_text(p).len() == params_len(p),
    decreases p.len(),
{
    if p.len() > 0 {
        lemma_query_text_len(p.drop_last());
    }
}

proof fn lemma_query_text_prefix(p: Seq<QueryParamView>, k: int)
    requires
        0 <= k <= p.len(),
    ensures
        query_text(p).take(query_text(p.take(k)).len() as int) == query_text(p.take(k)),
        query_text(p.take(k)).len() <= query_text(p).len(),
    decreases p.len(),
{
    if k == p.len() {
        assert(p.take(k) =~= p);
        assert(query_text(p).take(query_text(p).len() as int) =~= query_text(p));
    } else {
        let q = p.drop_last();
        assert(q.take(k) =~= p.take(k));
        lemma_query_text_prefix(q, k);
        let l = query_text(p.take(k)).len() as int;
        assert(query_text(p).take(l) =~= query_text(q).take(l));
    }
}

/// Every parameter of a manifest lands in its address, in order: after
/// the URI and a `?` come, one after the other, `&name=value` for each
/// parameter, and nothing else; without parameters the address is the URI.
pub proof fn lemma_manifest_uri_has_every_param(m: ManifestView)
    ensures
        m.query_params.len() == 0 ==> manifest_uri(m) == m.uri,
        m.query_params.len() > 0 ==> {
            &&& manifest_uri(m).len() == m.uri.len() + 1 + params_len(m.query_params)
            &&& manifest_uri(m).take(m.uri.len() as int) == m.uri
            &&& manifest_uri(m)[m.uri.len() as int] == '?'
            &&& forall|k: int| 0 <= k < m.query_params.len() ==> {
                let start = m.uri.len() + 1 + params_len(m.query_params.take(k));
                manifest_uri(m).subrange(start, start + param_segment(m.query_params[k]).len())
                    == #[trigger] param_segment(m.query_params[k])
            }
        },
{
    let p = m.query_params;
    let u = manifest_uri(m);
    if p.len() == 0 {
        assert(query_text(p) =~= Seq::<char>::empty());
        assert(u =~= m.uri);
    } else {
        let q = query_text(p);
        let h = m.uri + seq!['?'];
        assert(u =~= h + q);
        lemma_query_text_len(p);
        assert(u.take(m.uri.len() as int) =~= m.uri);
        assert forall|k: int| 0 <= k < p.len() implies {
            let start = m.uri.len() + 1 + params_len(p.take(k));
            u.subrange(start, start + param_segment(p[k]).len()) == #[trigger] param_segment(p[k])
        } by {
            lemma_query_text_prefix(p, k + 1);
            lemma_query_text_len(p.take(k));
            lemma_query_text_len(p.take(k + 1));
            assert(p.take(k + 1).drop_last() =~= p.take(k));
            assert(p.take(k + 1).last() == p[k]);
            let a = query_text(p.take(k));
            let seg = param_segment(p[k]);
            assert(query_text(p.take(k + 1)) =~= a + seg);
            let start = m.uri.len() + 1 + params_len(p.take(k));
            assert(q.take((a + seg).len() as int) == a + seg);
            assert(u.subrange(start, start + seg.len()) =~= (a + seg).subrange(a.len() as int, (a + seg).len() as int));
            assert((a + seg).subrange(a.len() as int, (a + seg).len() as int) =~= seg);
        }
    }
}

} // verus!
