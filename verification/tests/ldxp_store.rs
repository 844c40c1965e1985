use codextool::ldxp_store::{
    normalize_product,
    catalog_category_indices, configured_goods_types, safe_purchase_url, shop_response_error,
    strip_html, valid_key, CategoryRef,
};

#[test]
fn strips_markup_for_native_cards() {
    assert_eq!(strip_html("<p>Hello</p><p>Codex</p>"), "Hello Codex");
}

#[test]
fn rejects_unsafe_product_links_and_keys() {
    assert_eq!(
        safe_purchase_url("https://example.com/item/abc", "abc"),
        "https://wzyp.cn/item/abc"
    );
    assert!(valid_key("abc-123_X"));
    assert!(!valid_key("../abc"));
}

#[test]
fn decodes_entities_and_collapses_whitespace_in_descriptions() {
    assert_eq!(strip_html("<p>自动&nbsp;发货</p>"), "自动 发货");
    assert_eq!(strip_html("  a &amp; b\n\t c  "), "a & b c");
    assert_eq!(strip_html(""), "");
}

#[test]
fn keeps_the_shop_link_only_for_the_same_item() {
    assert_eq!(
        safe_purchase_url("https://wzyp.cn/item/abc?from=shop#top", "abc"),
        "https://wzyp.cn/item/abc?from=shop#top"
    );
    assert_eq!(
        safe_purchase_url("https://wzyp.cn/item/abcd", "abc"),
        "https://wzyp.cn/item/abc"
    );
}

#[test]
fn goods_keys_are_limited_to_sixty_four_bytes() {
    assert!(valid_key(&"a".repeat(64)));
    assert!(!valid_key(&"a".repeat(65)));
    assert!(!valid_key(""));
}

#[test]
fn screens_challenge_pages_and_http_failures() {
    assert!(shop_response_error("Text/HTML; charset=utf-8", "{}", true, 200).is_some());
    assert!(shop_response_error("application/json", "  <!DOCTYPE html><html>", true, 200).is_some());
    assert_eq!(
        shop_response_error("application/json", "{}", false, 503),
        Some("链动小铺请求失败（HTTP 503）。".to_string())
    );
    assert_eq!(shop_response_error("application/json", "{}", true, 200), None);
}

fn strings(values: &[&str]) -> Vec<String> {
    values.iter().map(|value| value.to_string()).collect()
}

#[test]
fn goods_types_follow_the_shop_order_of_known_kinds() {
    assert_eq!(
        configured_goods_types(Some(strings(&["equity", "toys", "card"]))),
        strings(&["equity", "card"])
    );
    assert_eq!(
        configured_goods_types(Some(strings(&["toys"]))),
        strings(&["card", "article", "resource", "equity"])
    );
    assert_eq!(
        configured_goods_types(None),
        strings(&["card", "article", "resource", "equity"])
    );
}

fn category(goods_type: &str, id: &str, name: &str) -> CategoryRef {
    CategoryRef {
        goods_type: goods_type.to_string(),
        id: id.to_string(),
        name: name.to_string(),
    }
}

#[test]
fn catalog_lists_each_category_once_in_key_order() {
    let products = vec![
        category("card", "7", "Seven"),
        category("article", "2", "Two"),
        category("card", "", ""),
        category("card", "7", "Seven again"),
        category("card", "", "Unnamed id"),
        category("article", "10", "Ten"),
    ];
    assert_eq!(catalog_category_indices(&products), vec![5, 1, 4, 0]);
    assert!(catalog_category_indices(&vec![category("card", "", "")]).is_empty());
}

#[test]
fn products_are_normalised_for_display() {
    let goods = normalize_product(
        "abc-1".to_string(),
        String::new(),
        String::new(),
        "<b>Fast</b> plan",
        "https://img/x.png".to_string(),
        "https://evil.example/item/abc-1",
        "7".to_string(),
        "Plans".to_string(),
        Some(0),
        "card",
    )
    .unwrap();
    assert_eq!(goods.goods_type, "card");
    assert_eq!(goods.name, "未命名商品");
    assert_eq!(goods.description, strip_html("<b>Fast</b> plan"));
    assert!(!goods.in_stock);
    assert_eq!(goods.purchase_url, "https://wzyp.cn/item/abc-1");
    let listed = normalize_product(
        "k".to_string(), "x".to_string(), "N".to_string(), "", String::new(),
        "https://wzyp.cn/item/k?ref=1", String::new(), String::new(), None, "card",
    )
    .unwrap();
    assert!(listed.in_stock);
    assert_eq!(listed.purchase_url, "https://wzyp.cn/item/k?ref=1");
    assert!(normalize_product(
        "bad key".to_string(), String::new(), String::new(), "", String::new(), "", String::new(),
        String::new(), None, "card",
    )
    .is_none());
}
