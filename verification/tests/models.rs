use purr::location::get_location_in_text;
use purr::models::ports::Port;
use purr::models::userstyles::Userstyle;
use purr::rewrite::as_tera_expr;

#[test]
fn tera_expression_wraps_its_value() {
    let r = as_tera_expr(&"base.hex".as_bytes().to_vec());
    assert_eq!(r.as_slice(), "{{ base.hex }}".as_bytes());
}

#[test]
fn location_is_one_based_line_and_column() {
    let text = "first\nsecond rgb(1, 2, 3)\n".as_bytes().to_vec();
    let search = "rgb(1, 2, 3)".as_bytes().to_vec();
    assert_eq!(get_location_in_text(&search, &text), "2:8");
    let head = "first".as_bytes().to_vec();
    assert_eq!(get_location_in_text(&head, &text), "1:1");
}

#[test]
fn userstyle_presents_as_web_port() {
    let userstyle = Userstyle {
        name: "Example".to_string(),
        categories: vec!["productivity".to_string()],
        icon: Some("icon".to_string()),
        color: "mauve".to_string(),
        link: "https://example.invalid".to_string(),
        note: None,
        supports: None,
        current_maintainers: vec!["https://github.com/someone".to_string()],
        past_maintainers: None,
    };
    let port = Port::from(userstyle);
    assert_eq!(port.name, "Example");
    assert_eq!(port.categories, vec!["productivity".to_string()]);
    assert_eq!(port.upstreamed, Some(false));
    assert_eq!(port.platform, vec!["web".to_string()]);
    assert_eq!(port.url, Some("https://example.invalid".to_string()));
    assert!(port.links.is_none());
    assert_eq!(port.icon, Some("icon".to_string()));
    assert_eq!(port.color, "mauve");
    assert!(port.alias.is_none());
    assert_eq!(port.current_maintainers, vec!["https://github.com/someone".to_string()]);
    assert_eq!(port.past_maintainers, None);
}
