use fortnite_downloader::tags_ignore::{AnswerError, TagsIgnored};

fn offer() -> TagsIgnored {
    TagsIgnored::new(vec!["hd".to_string(), "lang_de".to_string(), "lang_fr".to_string()])
}

#[test]
fn new_keeps_the_tags() {
    assert_eq!(offer().tags, vec!["hd", "lang_de", "lang_fr"]);
}

#[test]
fn answer_names_tags_in_order() {
    let r = offer().ignored_tags(&"2, 0\n".to_string());
    assert_eq!(r, Ok(vec!["lang_fr".to_string(), "hd".to_string()]));
}

#[test]
fn answer_may_repeat_and_use_plus_and_unicode_space() {
    let r = offer().ignored_tags(&"\u{3000}+1\t,1".to_string());
    assert_eq!(r, Ok(vec!["lang_de".to_string(), "lang_de".to_string()]));
}

#[test]
fn answer_with_a_word_is_refused() {
    assert_eq!(offer().ignored_tags(&"1,x".to_string()), Err(AnswerError::InvalidNumber));
    assert_eq!(offer().ignored_tags(&"".to_string()), Err(AnswerError::InvalidNumber));
    assert_eq!(offer().ignored_tags(&"1,".to_string()), Err(AnswerError::InvalidNumber));
    assert_eq!(offer().ignored_tags(&"-1".to_string()), Err(AnswerError::InvalidNumber));
    assert_eq!(offer().ignored_tags(&"+".to_string()), Err(AnswerError::InvalidNumber));
    assert_eq!(offer().ignored_tags(&"1 2".to_string()), Err(AnswerError::InvalidNumber));
}

#[test]
fn answer_past_the_list_is_refused() {
    assert_eq!(offer().ignored_tags(&"3".to_string()), Err(AnswerError::NoSuchTag));
    assert_eq!(offer().ignored_tags(&"0,9,x".to_string()), Err(AnswerError::NoSuchTag));
    assert_eq!(offer().ignored_tags(&"99999999999999999999999".to_string()), Err(AnswerError::InvalidNumber));
}
