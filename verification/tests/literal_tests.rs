use pinyin_ime::literal::{
    candidate_meta_requests_traditional_keep, looks_like_code_literal, looks_like_email_literal,
    looks_like_literal_candidate_that_should_not_be_converted, looks_like_path_literal,
    should_convert_candidate_to_traditional,
};

#[test]
fn email_literals() {
    assert!(looks_like_email_literal(" user@example.com "));
    assert!(!looks_like_email_literal("@example.com"));
    assert!(!looks_like_email_literal("user@.com"));
    assert!(!looks_like_email_literal("user@example."));
    assert!(!looks_like_email_literal("user@exa mple.com"));
    assert!(!looks_like_email_literal("userexample.com"));
}

#[test]
fn path_and_code_literals() {
    assert!(looks_like_path_literal("\\\\server\\share"));
    assert!(looks_like_path_literal("~/notes"));
    assert!(looks_like_path_literal("C:/tmp"));
    assert!(looks_like_path_literal("dir\\file.txt"));
    assert!(!looks_like_path_literal("dir\\file"));
    assert!(!looks_like_path_literal("中:/x"));
    assert!(looks_like_code_literal("```rust"));
    assert!(looks_like_code_literal("see\n```"));
    assert!(looks_like_code_literal("[link](https://a.b)"));
    assert!(!looks_like_code_literal("https://a.b"));
}

#[test]
fn traditional_conversion_guard() {
    assert!(looks_like_literal_candidate_that_should_not_be_converted("Mailto:someone"));
    assert!(looks_like_literal_candidate_that_should_not_be_converted("WWW.example"));
    assert!(looks_like_literal_candidate_that_should_not_be_converted("clipboard://1"));
    assert!(!looks_like_literal_candidate_that_should_not_be_converted("中国"));
    assert!(candidate_meta_requests_traditional_keep("x\t traditional=keep \ty"));
    assert!(candidate_meta_requests_traditional_keep("直输"));
    assert!(!candidate_meta_requests_traditional_keep("traditional=keep2"));
    assert!(should_convert_candidate_to_traditional("中国", None));
    assert!(!should_convert_candidate_to_traditional("  ", None));
    assert!(!should_convert_candidate_to_traditional("中国", Some("英文")));
    assert!(should_convert_candidate_to_traditional("中国", Some("other")));
    assert!(!should_convert_candidate_to_traditional("a@b.c", None));
}
