use mdbook_directives::config::{Config, TabConfig, TabsConfig, is_tags};
use mdbook_directives::errors::PluginError;
use mdbook_directives::render::tabs;
use mdbook_directives::tabs::{parse_tabs, process_chapter};
use mdbook_directives::token::Span;
use mdbook_directives::trunk::{iframe, parse_definitions, parse_iframes};

#[test]
fn tabs_config_parse_global() {
    let c = TabsConfig::parse(b"global=\"rust-flavour\"").unwrap();
    assert_eq!(Some(b"rust-flavour".to_vec()), c.global);
    assert!(c.tabs.is_empty());
}

#[test]
fn tabs_config_parse_empty_is_default() {
    let c = TabsConfig::parse(b"").unwrap();
    assert_eq!(None, c.global);
}

#[test]
fn tabs_config_rejects_unknown_key() {
    let e = TabsConfig::parse(b"colour=red").unwrap_err();
    assert_eq!(PluginError::ConfigParse, e);
}

#[test]
fn tabs_config_rejects_duplicate_key() {
    let e = TabsConfig::parse(b"global=a,global=b").unwrap_err();
    assert_eq!(PluginError::ConfigParse, e);
}

#[test]
fn tab_config_parse_name_variants() {
    let c = TabConfig::parse(b"name=Rust").unwrap();
    assert_eq!(b"Rust".to_vec(), c.name);

    let c = TabConfig::parse(b"name=\"A, B\"").unwrap();
    assert_eq!(b"A, B".to_vec(), c.name);

    let c = TabConfig::parse(b"  name =  Padded value  ").unwrap();
    assert_eq!(b"Padded value".to_vec(), c.name);
}

#[test]
fn tab_config_requires_name() {
    let e = TabConfig::parse(b"").unwrap_err();
    assert_eq!(PluginError::ConfigParse, e);
}

#[test]
fn parse_tabs_single_group() {
    let content = "{{#tabs }}\n{{#tab name=One}}\nFirst body.\n{{#endtab }}\n{{#tab name=Two}}\nSecond body.\n{{#endtab }}\n{{#endtabs }}\n";
    let (groups, nested) = parse_tabs(content.as_bytes()).unwrap();

    assert!(!nested);
    assert_eq!(1, groups.len());
    let (span, config) = &groups[0];
    assert_eq!(&Span { start: 0, end: 111 }, span);
    assert_eq!(None, config.global);
    assert_eq!(2, config.tabs.len());
    assert_eq!(b"One".to_vec(), config.tabs[0].0.name);
    assert_eq!(b"\nFirst body.\n".to_vec(), config.tabs[0].1);
    assert_eq!(b"Two".to_vec(), config.tabs[1].0.name);
    assert_eq!(b"\nSecond body.\n".to_vec(), config.tabs[1].1);
}

#[test]
fn parse_tabs_bad_config_fails() {
    let content = "{{#tabs bad syntax}}\nx\n{{#endtabs }}\n";
    let e = parse_tabs(content.as_bytes()).unwrap_err();
    assert_eq!(PluginError::ConfigParse, e);
}

#[test]
fn parse_tabs_skips_unclosed_group() {
    let content = "{{#tabs }}\nno end marker here\n";
    let (groups, nested) = parse_tabs(content.as_bytes()).unwrap();
    assert!(groups.is_empty());
    assert!(!nested);
}

#[test]
fn tabs_renders_buttons_and_contents() {
    let config = TabsConfig {
        global: Some(b"lang".to_vec()),
        tabs: vec![
            (TabConfig { name: b"One".to_vec() }, b"first".to_vec()),
            (TabConfig { name: b"Two".to_vec() }, b"second".to_vec()),
        ],
    };
    let html = String::from_utf8(tabs(&config)).unwrap();
    let expected = "<div class=\"mdbook-tabs-container\" data-tabglobal=\"lang\">\n\
                    <nav class=\"mdbook-tabs\">\n\
                    <button class=\"mdbook-tab active\" data-tabname=\"One\">One</button>\n\
                    <button class=\"mdbook-tab\" data-tabname=\"Two\">Two</button>\n\
                    </nav>\n\
                    <div class=\"mdbook-tab-content\" data-tabname=\"One\">\n\nfirst\n\n</div>\n\
                    <div class=\"mdbook-tab-content hidden\" data-tabname=\"Two\">\n\nsecond\n\n</div>\n\
                    </div>";
    assert_eq!(expected, html);
}

#[test]
fn process_chapter_replaces_group_in_place() {
    let content = "AAA\n\n{{#tabs }}\n{{#tab name=X}}\nbody\n{{#endtab }}\n{{#endtabs }}\n\nZZZ";
    let (out, pending) = process_chapter(content.as_bytes().to_vec(), 4).unwrap();
    let out = String::from_utf8(out).unwrap();

    assert!(!pending);
    assert!(out.starts_with("AAA\n\n"));
    assert!(out.ends_with("\n\nZZZ"));
    assert!(out.contains("mdbook-tabs-container"));
    assert!(out.contains("data-tabname=\"X\""));
    assert!(!out.contains("{{#tabs"));
    assert!(!out.contains("{{#endtabs"));
}

#[test]
fn process_chapter_resolves_nesting_over_passes() {
    let content = "{{#tabs }}\n{{#tab name=outer}}\n{{#tabs }}\n{{#tab name=inner}}\nDeep body.\n{{#endtab }}\n{{#endtabs }}\n{{#endtab }}\n{{#endtabs }}\n";
    let (out, pending) = process_chapter(content.as_bytes().to_vec(), 8).unwrap();
    let out = String::from_utf8(out).unwrap();

    assert!(!pending);
    assert!(out.contains("data-tabname=\"outer\""));
    assert!(out.contains("data-tabname=\"inner\""));
    assert!(out.contains("Deep body."));
    assert!(!out.contains("{{#tabs"));
    assert!(!out.contains("{{#endtabs"));

    // The end state is stable: reprocessing finds no directive blocks.
    let (groups, nested) = parse_tabs(out.as_bytes()).unwrap();
    assert!(groups.is_empty());
    assert!(!nested);
}

#[test]
fn is_tags_requires_toml_then_trunk() {
    assert!(is_tags(&vec![b"toml".to_vec(), b"trunk".to_vec()]));
    assert!(is_tags(&vec![
        b"toml".to_vec(),
        b"trunk".to_vec(),
        b"extra".to_vec(),
    ]));
    assert!(!is_tags(&vec![b"toml".to_vec()]));
    assert!(!is_tags(&vec![b"trunk".to_vec(), b"toml".to_vec()]));
}

#[test]
fn parse_definitions_returns_toml_payload() {
    let content = "Intro.\n\n```toml,trunk\npackage = \"demo\"\n```\n";
    let defs = parse_definitions(content.as_bytes()).unwrap();
    assert_eq!(1, defs.len());
    assert_eq!(b"package = \"demo\"\n".to_vec(), defs[0].1);
    let whole = &content.as_bytes()[defs[0].0.start..defs[0].0.end];
    assert_eq!(b"```toml,trunk\npackage = \"demo\"\n```".to_vec(), whole.to_vec());
}

#[test]
fn parse_definitions_normalizes_fence_tags() {
    let content = "```TOML, Trunk\npackage = \"demo\"\n```\n";
    let defs = parse_definitions(content.as_bytes()).unwrap();
    assert_eq!(1, defs.len());
    assert_eq!(b"package = \"demo\"\n".to_vec(), defs[0].1);
}

#[test]
fn parse_definitions_ignores_other_fences() {
    let content = "```toml\nkey = \"v\"\n```\n\n```shell\necho hi\n```\n";
    let defs = parse_definitions(content.as_bytes()).unwrap();
    assert!(defs.is_empty());
}

fn demo_config() -> Config {
    Config {
        package: b"demo".to_vec(),
        features: vec![b"one".to_vec(), b"two".to_vec()],
        url_query: Some(b"?q=1".to_vec()),
        url_fragment: Some(b"top".to_vec()),
        attributes: Some(vec![(b"width".to_vec(), b"100%".to_vec())]),
    }
}

#[test]
fn config_dest_name_joins_features() {
    let c = demo_config();
    assert_eq!(b"demo--one--two".to_vec(), c.dest_name());

    let bare = Config {
        package: b"demo".to_vec(),
        features: vec![],
        url_query: None,
        url_fragment: None,
        attributes: None,
    };
    assert_eq!(b"demo--".to_vec(), bare.dest_name());
}

#[test]
fn iframe_builds_address_and_attributes() {
    let c = demo_config();
    let json = b"{\"package\":\"demo\"}";
    let html = String::from_utf8(iframe(&c, json)).unwrap();

    assert!(html.starts_with("<iframe data-mdbook-trunk=\""));
    assert!(html.contains("class=\"mdbook-trunk-iframe\""));
    assert!(html.contains("src=\"/demo--one--two/index.html?q=1#top\""));
    assert!(html.contains("width=\""));
    assert!(html.ends_with("></iframe>"));
    // The JSON payload is entity-encoded: its quotes may not appear raw.
    assert!(!html.contains("data-mdbook-trunk=\"{\""));
}

#[test]
fn iframe_round_trips_through_parse_iframes() {
    let c = demo_config();
    let json = b"{\"package\":\"demo\",\"features\":[\"one\",\"two\"]}";
    let element = iframe(&c, json);
    let mut page: Vec<u8> = Vec::new();
    page.extend_from_slice(b"Intro text.\n\n");
    let start = page.len();
    page.extend_from_slice(&element);
    page.extend_from_slice(b"\n\nOutro text.\n");

    let iframes = parse_iframes(&page).unwrap();
    assert_eq!(1, iframes.len());
    assert_eq!(start, iframes[0].0.start);
    // The entity-encoded payload decodes back to the original JSON.
    assert_eq!(json.to_vec(), iframes[0].1);
}

#[test]
fn tab_config_rejects_unterminated_quote() {
    let e = TabConfig::parse(b"name=\"unterminated").unwrap_err();
    assert_eq!(PluginError::ConfigParse, e);
}

#[test]
fn marker_payload_quirks_are_tolerated() {
    // Markers without the trailing space, and markers with suffix noise,
    // still parse: the payload is what stands between the braces.
    let content = "{{#tabs global=g}}\n{{#tab name=N}}\nbody\n{{#endtab}}\n{{#endtabs}}\n";
    let (groups, nested) = parse_tabs(content.as_bytes()).unwrap();
    assert!(!nested);
    assert_eq!(1, groups.len());
    assert_eq!(Some(b"g".to_vec()), groups[0].1.global);
    assert_eq!(1, groups[0].1.tabs.len());
    assert_eq!(b"N".to_vec(), groups[0].1.tabs[0].0.name);
}

#[test]
fn record_rejects_missing_key_or_value_syntax() {
    assert_eq!(PluginError::ConfigParse, TabsConfig::parse(b"=x").unwrap_err());
    assert_eq!(PluginError::ConfigParse, TabsConfig::parse(b"global").unwrap_err());
    assert_eq!(
        PluginError::ConfigParse,
        TabsConfig::parse(b"global=a,,").unwrap_err()
    );
}

#[test]
fn merged_marker_line_is_not_a_start() {
    // A single text token holding both the open and the close marker is not
    // taken as a block start, so nothing is matched.
    let content = "{{#tabs }} {{#endtabs }}\n";
    let (groups, nested) = parse_tabs(content.as_bytes()).unwrap();
    assert!(groups.is_empty());
    assert!(!nested);
}
