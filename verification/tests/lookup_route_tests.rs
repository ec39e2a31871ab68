use pinyin_ime::engine::MODE_CLIPBOARD_DISABLED;
use pinyin_ime::lookup_route::{lookup_route, LookupRoute, MODE_U_MODE, MODE_V_ASSIST};

fn defs() -> Vec<(String, Vec<String>)> {
    vec![("dz".to_string(), vec!["地址".to_string(), "电子".to_string()])]
}

fn route(raw: &str, flags: u32, radical: bool, clip: bool, vv: bool, direct: bool) -> LookupRoute {
    lookup_route(raw, flags, &defs(), radical, clip, vv, direct)
}

#[test]
fn blank_input_goes_nowhere() {
    assert!(matches!(route("  \t", MODE_U_MODE, true, false, true, true), LookupRoute::Empty));
}

#[test]
fn u_mode_radicals_need_a_hit_and_more_than_u() {
    assert!(matches!(route("umu", MODE_U_MODE, true, false, false, false), LookupRoute::Radical));
    assert!(matches!(route("umu", MODE_U_MODE, false, false, false, false), LookupRoute::Pipeline));
    assert!(matches!(route("u", MODE_U_MODE, true, false, false, false), LookupRoute::Pipeline));
    assert!(matches!(route("umu", 0, true, false, false, false), LookupRoute::Pipeline));
}

#[test]
fn custom_phrases_come_before_vv_and_direct_input_with_their_note() {
    match route(" DZ ", MODE_V_ASSIST, false, false, true, true) {
        LookupRoute::Shortcut(found) => {
            let phrases: Vec<(&str, &str, &str)> = found
                .iter()
                .map(|c| (c.phrase.as_str(), c.source_key.as_str(), c.annotation.as_str()))
                .collect();
            assert_eq!(phrases, [("地址", "dz", "自定义: dz"), ("电子", "dz", "自定义: dz")]);
        }
        _ => panic!("custom phrase not routed"),
    }
}

#[test]
fn vv_commands_need_vv_mode_and_an_answer() {
    assert!(matches!(route("vvrq", MODE_V_ASSIST, false, false, true, true), LookupRoute::VvCommand));
    assert!(matches!(route("vvrq", MODE_V_ASSIST, false, false, false, true), LookupRoute::Direct));
    assert!(matches!(route("vvrq", MODE_V_ASSIST, false, false, false, false), LookupRoute::Pipeline));
    assert!(matches!(route("vvrq", 0, false, false, true, false), LookupRoute::Pipeline));
}

#[test]
fn clipboard_commands_go_nowhere_while_the_clipboard_is_off() {
    let flags = MODE_V_ASSIST | MODE_CLIPBOARD_DISABLED;
    assert!(matches!(route("vvjt", flags, false, true, true, true), LookupRoute::Empty));
    assert!(matches!(route("vvjt", MODE_V_ASSIST, false, true, true, true), LookupRoute::VvCommand));
}
