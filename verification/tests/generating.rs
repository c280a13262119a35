use namegen::fixedgen;
use namegen::mchain::Chain;
use namegen::namegen::{
    construct_chain, draw_by_rule, pick_value, rule_weights, fmt_menu, fmt_readable, generate, get_data, get_fmt, get_lists,
    get_rulesets, iter_generate, menu_readable, rule_select, rules_readable, Rule,
};
use namegen::xml::XmlTree;

const NAMES: &str = r#"<Namegen>
  <Ruleset id="full" title="Full Name" usage="final">
    <Category title="Sex:Male"/>
    <Category title="Elvish"/>
    <Category title="All Peoples"/>
    <Rule weight="3"><GetList idref="first" title="First"/><Space/><GetList idref="last" title="Last"/></Rule>
    <Rule weight="1"><GetList idref="first"/><Hyphen/><GetRule idref="sub"/></Rule>
  </Ruleset>
  <Ruleset id="sub" title="Sub">
    <Rule><GetList idref="last"/></Rule>
  </Ruleset>
  <List id="first"><Value>Ann</Value><Value> Bob </Value></List>
  <List id="last"><Value>Smith</Value></List>
</Namegen>"#;

fn tree(text: &str) -> XmlTree {
    match XmlTree::parse(text) {
        Ok(t) => t,
        Err(_) => panic!("the sample parses"),
    }
}

#[test]
fn menu_entry_shows_title_gender_and_details() {
    let t = tree(NAMES);
    let rs = get_rulesets(&t);
    assert!(menu_readable(&t, rs[0]));
    assert_eq!(fmt_menu(&t, rs[0]), "Full Name:Male\t     Elvish");
    assert_eq!(fmt_menu(&t, rs[1]), "Sub:");
}

#[test]
fn ruleset_rules_are_framed() {
    let t = tree(NAMES);
    let rs = get_rulesets(&t);
    assert!(fmt_readable(&t, rs[0]));
    let rules = get_fmt(&t, rs[0]);
    assert_eq!(rules.len(), 2);
    assert_eq!(rules[0].fmt, vec!["first", "space", "last"]);
    assert_eq!(rules[0].style, "(First)( )(Last)");
    assert_eq!(rules[0].weight, 3);
    assert_eq!(rules[1].style, "(name)(-)(subrule)");
}

#[test]
fn plain_rules_are_bare() {
    let t = tree(NAMES);
    let rs = get_rulesets(&t);
    let rules = fixedgen::get_fmt(&t, rs[0]);
    assert_eq!(rules[0].style, "First Last");
    assert_eq!(rules[1].style, "unknown-unknown");
}

#[test]
fn names_follow_the_rules_and_differ() {
    let t = tree(NAMES);
    let rs = get_rulesets(&t);
    let rules = get_fmt(&t, rs[0]);
    assert!(rules_readable(&t, &rules));
    // "first" has two items and the draw never takes the last one
    let names = iter_generate(&t, &rules, 3, 2);
    assert_eq!(names.len(), 2);
    assert_ne!(names[0], names[1]);
    for n in &names {
        assert!(n == "Ann Smith" || n == "Ann-Smith", "unexpected name {}", n);
    }
    let one = generate(&t, &rules).unwrap();
    assert!(one == "Ann Smith" || one == "Ann-Smith");
}

#[test]
fn zero_weights_select_nothing() {
    let zero = vec![Rule { fmt: vec![], weight: 0, style: String::new() }];
    assert_eq!(rule_select(&zero), None);
    assert_eq!(rule_select(&[]), None);
    let mixed = vec![
        Rule { fmt: vec![], weight: 0, style: String::new() },
        Rule { fmt: vec![], weight: 5, style: String::new() },
    ];
    for _ in 0..20 {
        assert_eq!(rule_select(&mixed), Some(1));
    }
}

#[test]
fn a_single_weighted_rule_is_always_selected() {
    let one = vec![Rule { fmt: vec!["space".to_string()], weight: 4, style: String::new() }];
    for _ in 0..20 {
        assert_eq!(rule_select(&one), Some(0));
    }
    let t = tree(NAMES);
    for _ in 0..5 {
        assert_eq!(generate(&t, &one), Some(" ".to_string()));
        assert_eq!(fixedgen::generate(&t, &one), Some(" ".to_string()));
    }
    assert_eq!(fixedgen::iter_generate(&t, &one, 3).len(), 5);
    assert_eq!(iter_generate(&t, &one, 3, 1), vec![" ".to_string()]);
}

fn big_list() -> String {
    let mut s = String::from("<Doc><Ruleset id=\"r\" title=\"R\"><Rule><GetList idref=\"big\"/></Rule></Ruleset><List id=\"big\">");
    for i in 0..25 {
        s.push_str(&format!("<Value>ab{}</Value>", i % 3));
    }
    s.push_str("</List><List id=\"empty\"></List></Doc>");
    s
}

#[test]
fn large_lists_draw_from_their_chain() {
    let text = big_list();
    let t = tree(&text);
    let lists = get_lists(&t);
    assert_eq!(get_data(&t, lists[0]).len(), 25);
    let chain = construct_chain(&t, lists[0], 2);
    assert_eq!(chain.id(), lists[0]);
    let out = chain.generate();
    assert!(!out.is_empty());
    assert!(out.iter().all(|c| "ab012".contains(*c)));
    let rs = get_rulesets(&t);
    let rules = get_fmt(&t, rs[0]);
    for n in iter_generate(&t, &rules, 2, 1) {
        assert!(!n.is_empty());
        assert!(n.chars().all(|c| "ab012".contains(c)));
        // an order-2 chain only steps along windows of three seen in the items
        assert!(n == "ab0" || n == "ab1" || n == "ab2", "unexpected name {}", n);
    }
}

#[test]
fn empty_lists_draw_from_a_trained_chain() {
    // nothing is trained yet: nothing can be drawn
    let t = tree(r#"<Doc><Ruleset><Rule><GetList idref="e"/></Rule></Ruleset><List id="e"></List></Doc>"#);
    let rs = get_rulesets(&t);
    let rules = get_fmt(&t, rs[0]);
    assert!(rules_readable(&t, &rules));
    assert_eq!(generate(&t, &rules), None);
    assert!(iter_generate(&t, &rules, 3, 4).is_empty());
    // a large list met first trains a chain, which the empty list then draws from
    let mut text = String::from("<Doc><Ruleset><Rule><GetList idref=\"big\"/><Space/><GetList idref=\"e\"/></Rule></Ruleset><List id=\"big\">");
    for _ in 0..20 {
        text.push_str("<Value>q</Value>");
    }
    text.push_str("</List><List id=\"e\"></List></Doc>");
    let t = tree(&text);
    let rs = get_rulesets(&t);
    let rules = get_fmt(&t, rs[0]);
    let n = generate(&t, &rules).unwrap();
    let (a, b) = n.split_once(' ').unwrap();
    assert!(!a.is_empty() && a.chars().all(|c| c == 'q'));
    assert!(!b.is_empty() && b.chars().all(|c| c == 'q'));
}

#[test]
fn unusable_reached_parts_are_not_ready() {
    // a large list whose items are all blank
    let mut text = String::from("<Doc><Ruleset><Rule><GetList idref=\"blank\"/></Rule></Ruleset><List id=\"blank\">");
    for _ in 0..20 {
        text.push_str("<Value>  </Value>");
    }
    text.push_str("</List></Doc>");
    let t = tree(&text);
    let rs = get_rulesets(&t);
    let rules = get_fmt(&t, rs[0]);
    assert!(!rules_readable(&t, &rules));
    // a rule of weight 0 is never drawn, so what it names does not matter
    let mut text = String::from("<Doc><Ruleset><Rule><Space/></Rule><Rule weight=\"0\"><GetList idref=\"blank\"/></Rule></Ruleset><List id=\"blank\">");
    for _ in 0..20 {
        text.push_str("<Value>  </Value>");
    }
    text.push_str("</List></Doc>");
    let t = tree(&text);
    let rs = get_rulesets(&t);
    let rules = get_fmt(&t, rs[0]);
    assert!(rules_readable(&t, &rules));
    assert_eq!(generate(&t, &rules), Some(" ".to_string()));
    // a nested ruleset whose rule has an unreadable weight
    let t = tree(r#"<Doc><Ruleset><Rule><GetRule idref="s"/></Rule></Ruleset><Ruleset id="s"><Rule weight="4294967296"><Space/></Rule></Ruleset></Doc>"#);
    let rs = get_rulesets(&t);
    let rules = get_fmt(&t, rs[0]);
    assert!(!rules_readable(&t, &rules));
    // a ruleset that no rule reaches does not matter
    let t = tree(r#"<Doc><Ruleset><Rule><GetList idref="f"/></Rule></Ruleset><Ruleset><Rule weight="4294967296"><Space/></Rule></Ruleset><List id="f"><Value>x</Value></List></Doc>"#);
    let rs = get_rulesets(&t);
    let rules = get_fmt(&t, rs[0]);
    assert!(rules_readable(&t, &rules));
    assert_eq!(generate(&t, &rules), Some("x".to_string()));
}

#[test]
fn plain_generation_pads_with_empty_entries() {
    let t = tree(NAMES);
    let rs = get_rulesets(&t);
    let rules = fixedgen::get_fmt(&t, rs[0]);
    assert!(fixedgen::plain_rules_readable(&t, &rules));
    let names = fixedgen::iter_generate(&t, &rules, 3);
    assert_eq!(names.len(), 5);
    for n in &names[..3] {
        assert!(n == "Ann " || n == "Ann-", "unexpected name {}", n);
    }
    assert!(names[3].is_empty() && names[4].is_empty());
}

#[test]
fn training_text_ends_each_child_with_a_space() {
    let t = tree(r#"<L><Value> a b </Value><Other/><Value>c</Value></L>"#);
    let (text, n) = fixedgen::get_tdata(&t, 1);
    assert_eq!(text, "a b  c ");
    assert_eq!(n, 2);
}

#[test]
fn name_chain_trains_on_trimmed_items() {
    let mut c = Chain::new("f.xml", 7, 1);
    assert!(!c.is_trained());
    c.train(&[" xy ".to_string(), "   ".to_string()]);
    assert!(c.is_trained());
    assert_eq!(c.get_id(), (7, "f.xml".to_string()));
    assert_eq!(c.generate(), vec!['x', 'y']);
}

#[test]
fn weights_and_picks_are_handed_on_exactly() {
    let rules = vec![
        Rule { fmt: vec![], weight: 0, style: String::new() },
        Rule { fmt: vec![], weight: 7, style: String::new() },
        Rule { fmt: vec![], weight: 2, style: String::new() },
    ];
    assert_eq!(rule_weights(&rules), vec![0usize, 7, 2]);
    let data = vec!["x".to_string(), "y".to_string(), "z".to_string()];
    assert_eq!(pick_value(&data, 1), "x");
    assert_eq!(pick_value(&data, 3), "z");
}

#[test]
fn a_name_is_laid_out_by_the_rule_given() {
    let t = tree(NAMES);
    let rs = get_rulesets(&t);
    let rules = get_fmt(&t, rs[0]);
    let mut chains = Vec::new();
    // rule 1 is "first" hyphen "sub", and "sub" gives "Smith"
    let n = draw_by_rule(&t, &rules, 1, 3, &mut chains, t.len()).unwrap();
    assert_eq!(n, "Ann-Smith");
    let n = draw_by_rule(&t, &rules, 0, 3, &mut chains, t.len()).unwrap();
    assert_eq!(n, "Ann Smith");
    let plain = fixedgen::get_fmt(&t, rs[0]);
    let mut pchains = Vec::new();
    assert_eq!(fixedgen::plain_draw_by_rule(&t, &plain, 1, &mut pchains, t.len()), Some("Ann-".to_string()));
}
