//! The storefront catalogue of the third-party shop: product text cleanup,
//! key validation, purchase links, the screening of shop responses, and the
//! kinds of goods and categories the catalogue lists.
use vstd::prelude::*;

use crate::order::{insert_ascending_unique, seq_lt, strictly_ascending, texts};
use crate::text::{
    ascii_lower, ascii_lowercase, chars_of, contains_seq, contains_str, decimal, decimal_string,
    has_prefix, is_ws, replace_all, replace_chars, squeeze_whitespace, squeeze_ws, starts_with_str,
    string_from, trim_start, utf8_len, utf8_len_exceeds,
};

verus! {

/// Whether `s` (the characters seen so far) ends inside an HTML tag.
pub open spec fn inside_tag(s: Seq<char>) -> bool
    decreases s.len(),
{
    if s.len() == 0 {
        false
    } else if s.last() == '<' {
        true
    } else if s.last() == '>' {
        false
    } else {
        inside_tag(s.drop_last())
    }
}

/// `s` with every tag dropped and every `>` written as a space.
pub open spec fn untagged(s: Seq<char>) -> Seq<char>
    decreases s.len(),
{
    if s.len() == 0 {
        seq![]
    } else {
        let before = untagged(s.drop_last());
        let c = s.last();
        if c == '<' {
            before
        } else if c == '>' {
            before.push(' ')
        } else if inside_tag(s.drop_last()) {
            before
        } else {
            before.push(c)
        }
    }
}

/// Plain text of a product description: tags removed, `&nbsp;` and `&amp;`
/// decoded, whitespace collapsed.
pub open spec fn plain_text(s: Seq<char>) -> Seq<char> {
    squeeze_ws(replace_all(replace_all(untagged(s), "&nbsp;"@, " "@), "&amp;"@, "&"@))
}

/// Removes markup from a product description.
pub fn strip_html(value: &str) -> (r: String)
    ensures
        r@ == plain_text(value@),
{
    let v = chars_of(value);
    let mut output: Vec<char> = Vec::new();
    let mut in_tag = false;
    let mut i: usize = 0;
    while i < v.len()
        invariant
            i <= v@.len(),
            output@ == untagged(v@.subrange(0, i as int)),
            in_tag == inside_tag(v@.subrange(0, i as int)),
        decreases v@.len() - i,
    {
        assert(v@.subrange(0, i + 1).drop_last() =~= v@.subrange(0, i as int));
        let c = v[i];
        if c == '<' {
            in_tag = true;
        } else if c == '>' {
            in_tag = false;
            output.push(' ');
        } else if !in_tag {
            output.push(c);
        }
        i = i + 1;
    }
    assert(v@.subrange(0, i as int) =~= v@);
    proof {
        reveal_strlit("&nbsp;");
        reveal_strlit("&amp;");
    }
    let a = replace_chars(output.as_slice(), "&nbsp;", " ");
    let b = replace_chars(a.as_slice(), "&amp;", "&");
    let c = squeeze_whitespace(b.as_slice());
    string_from(c.as_slice())
}

pub open spec fn key_char(c: char) -> bool {
    ('a' <= c && c <= 'z') || ('A' <= c && c <= 'Z') || ('0' <= c && c <= '9') || c == '-' || c
        == '_'
}

/// A goods key is non-empty, at most 64 bytes long and made of ASCII
/// letters, digits, `-` and `_`.
pub open spec fn key_accepted(s: Seq<char>) -> bool {
    &&& s.len() > 0
    &&& utf8_len(s) <= 64
    &&& forall|i: int| 0 <= i < s.len() ==> key_char(#[trigger] s[i])
}

/// Whether `value` may be used as a goods key.
pub fn valid_key(value: &str) -> (r: bool)
    ensures
        r == key_accepted(value@),
{
    let v = chars_of(value);
    if v.len() == 0 || utf8_len_exceeds(v.as_slice(), 64) {
        return false;
    }
    let mut i: usize = 0;
    while i < v.len()
        invariant
            i <= v@.len(),
            v@ == value@,
            forall|j: int| 0 <= j < i ==> key_char(#[trigger] v@[j]),
        decreases v@.len() - i,
    {
        let c = v[i];
        if !(('a' <= c && c <= 'z') || ('A' <= c && c <= 'Z') || ('0' <= c && c <= '9') || c == '-'
            || c == '_') {
            assert(!key_char(v@[i as int]));
            return false;
        }
        i = i + 1;
    }
    true
}

/// The part of `s` before its first `?` or `#`.
pub open spec fn before_query(s: Seq<char>) -> Seq<char>
    decreases s.len(),
{
    if s.len() == 0 {
        s
    } else if s[0] == '?' || s[0] == '#' {
        seq![]
    } else {
        seq![s[0]] + before_query(s.drop_first())
    }
}

/// The item page prefix of the shop.
pub open spec fn item_prefix() -> Seq<char> {
    "https://wzyp.cn/item/"@
}

/// The purchase link shown for a product: the shop's own link when it points
/// at this very item page, else the canonical item page.
pub open spec fn purchase_url(link: Seq<char>, goods_key: Seq<char>) -> Seq<char> {
    if has_prefix(link, item_prefix()) && before_query(link.skip(item_prefix().len() as int))
        == goods_key {
        link
    } else {
        item_prefix() + goods_key
    }
}

/// Characters of `s` from `a` up to the first `?` or `#`.
fn before_query_from(s: &[char], a: usize) -> (r: Vec<char>)
    requires
        a <= s@.len(),
    ensures
        r@ == before_query(s@.skip(a as int)),
{
    let mut r: Vec<char> = Vec::new();
    let mut i = a;
    assert(s@.subrange(a as int, a as int) + before_query(s@.skip(a as int)) =~= before_query(
        s@.skip(a as int),
    ));
    while i < s.len() && s[i] != '?' && s[i] != '#'
        invariant
            a <= i <= s@.len(),
            r@ == s@.subrange(a as int, i as int),
            before_query(s@.skip(a as int)) == r@ + before_query(s@.skip(i as int)),
        decreases s@.len() - i,
    {
        assert(s@.skip(i as int).drop_first() =~= s@.skip(i + 1));
        assert(r@.push(s@[i as int]) + before_query(s@.skip(i + 1)) =~= r@ + (seq![s@[i as int]]
            + before_query(s@.skip(i + 1))));
        r.push(s[i]);
        i = i + 1;
    }
    assert(r@ + before_query(s@.skip(i as int)) =~= r@);
    r
}

/// The purchase link for `goods_key`, given the (trimmed) link the shop returned.
pub fn safe_purchase_url(link: &str, goods_key: &str) -> (r: String)
    ensures
        r@ == purchase_url(link@, goods_key@),
{
    let l = chars_of(link);
    let prefix = chars_of("https://wzyp.cn/item/");
    let key = chars_of(goods_key);
    if crate::text::occurs_at_exec(l.as_slice(), prefix.as_slice(), 0) {
        let rest = before_query_from(l.as_slice(), prefix.len());
        if crate::text::chars_eq(rest.as_slice(), key.as_slice()) {
            return link.to_string();
        }
    }
    let mut out = prefix;
    let mut i: usize = 0;
    let ghost p = out@;
    while i < key.len()
        invariant
            i <= key@.len(),
            out@ == p + key@.subrange(0, i as int),
        decreases key@.len() - i,
    {
        out.push(key[i]);
        i = i + 1;
    }
    assert(key@.subrange(0, i as int) =~= key@);
    string_from(out.as_slice())
}

/// Message shown when the shop answers with its anti-bot challenge page.
pub open spec fn challenge_message() -> Seq<char> {
    "链动小铺正在进行安全验证，请稍后重试或在浏览器打开店铺；CodexTool 官方货源不受影响。"@
}

/// The response is the shop's browser challenge rather than data.
pub open spec fn is_challenge_page(content_type: Seq<char>, body: Seq<char>) -> bool {
    let start = ascii_lower(trim_start(body));
    contains_seq(ascii_lower(content_type), "text/html"@) || has_prefix(start, "<html"@)
        || has_prefix(start, "<!doctype html"@) || contains_seq(body, "var arg1"@)
}

/// What is wrong with a shop response before its body is parsed, if anything.
pub open spec fn shop_response_problem(
    content_type: Seq<char>,
    body: Seq<char>,
    status_success: bool,
    status_code: u16,
) -> Option<Seq<char>> {
    if is_challenge_page(content_type, body) {
        Some(challenge_message())
    } else if !status_success {
        Some("链动小铺请求失败（HTTP "@ + decimal(status_code as nat) + "）。"@)
    } else {
        None
    }
}

/// Screens a shop response: its `Content-Type` header, its body and its HTTP
/// status.
pub fn shop_response_error(
    content_type: &str,
    body: &str,
    status_success: bool,
    status_code: u16,
) -> (r: Option<String>)
    ensures
        r matches Some(m) ==> shop_response_problem(content_type@, body@, status_success, status_code)
            == Some(m@),
        r is None ==> shop_response_problem(content_type@, body@, status_success, status_code) is None,
{
    let ct = chars_of(content_type);
    let ct_lower = ascii_lowercase(ct.as_slice());
    let b = chars_of(body);
    let mut k: usize = 0;
    assert(b@.skip(0) =~= b@);
    while k < b.len() && crate::text::is_ws_char(b[k])
        invariant
            k <= b@.len(),
            trim_start(b@) == trim_start(b@.skip(k as int)),
        decreases b@.len() - k,
    {
        assert(b@.skip(k as int).drop_first() =~= b@.skip(k + 1));
        k = k + 1;
    }
    let start = crate::text::slice_to_vec(b.as_slice(), k, b.len());
    assert(start@ =~= b@.skip(k as int));
    let start_lower = ascii_lowercase(start.as_slice());
    if contains_str(ct_lower.as_slice(), "text/html") || starts_with_str(
        start_lower.as_slice(),
        "<html",
    ) || starts_with_str(start_lower.as_slice(), "<!doctype html") || contains_str(
        b.as_slice(),
        "var arg1",
    ) {
        return Some(
            "链动小铺正在进行安全验证，请稍后重试或在浏览器打开店铺；CodexTool 官方货源不受影响。".to_string(),
        );
    }
    if !status_success {
        let mut m = "链动小铺请求失败（HTTP ".to_string();
        let code = decimal_string(status_code as u64);
        m.append(code.as_str());
        m.append("）。");
        return Some(m);
    }
    None
}

proof fn lemma_untagged_has_no_brackets(s: Seq<char>)
    ensures
        crate::text::free_of(untagged(s), '<'),
        crate::text::free_of(untagged(s), '>'),
    decreases s.len(),
{
    if s.len() > 0 {
        lemma_untagged_has_no_brackets(s.drop_last());
        let before = untagged(s.drop_last());
        assert forall|i: int| 0 <= i < untagged(s).len() implies #[trigger] untagged(s)[i] != '<'
            && untagged(s)[i] != '>' by {
            if i < before.len() {
                assert(untagged(s)[i] == before[i]);
            }
        }
    }
}

/// Plain product text holds no tag brackets: whatever the description's
/// markup, `<` and `>` never reach a native card.
pub proof fn law_plain_text_has_no_tag_brackets(s: Seq<char>)
    ensures
        forall|i: int| 0 <= i < plain_text(s).len() ==> #[trigger] plain_text(s)[i] != '<' && plain_text(s)[i] != '>',
{
    reveal_strlit(" ");
    reveal_strlit("&");
    lemma_untagged_has_no_brackets(s);
    let u = untagged(s);
    let a = replace_all(u, "&nbsp;"@, " "@);
    crate::text::lemma_replace_all_free_of(u, "&nbsp;"@, " "@, '<');
    crate::text::lemma_replace_all_free_of(u, "&nbsp;"@, " "@, '>');
    crate::text::lemma_replace_all_free_of(a, "&amp;"@, "&"@, '<');
    crate::text::lemma_replace_all_free_of(a, "&amp;"@, "&"@, '>');
    let b = replace_all(a, "&amp;"@, "&"@);
    crate::text::lemma_squeeze_ws_free_of(b, '<');
    crate::text::lemma_squeeze_ws_free_of(b, '>');
}

/// The kinds of goods the shop sells, in its default order.
pub open spec fn default_goods_types() -> Seq<Seq<char>> {
    seq!["card"@, "article"@, "resource"@, "equity"@]
}

/// The entries of `s` that name a kind of goods the shop sells, in order.
pub open spec fn known_goods_types(s: Seq<Seq<char>>) -> Seq<Seq<char>>
    decreases s.len(),
{
    if s.len() == 0 {
        seq![]
    } else if default_goods_types().contains(s.last()) {
        known_goods_types(s.drop_last()).push(s.last())
    } else {
        known_goods_types(s.drop_last())
    }
}

/// The kinds of goods to list: those of the shop's own ordering (its string
/// entries) that are known, else all known kinds in the default order.
pub open spec fn goods_types_to_list(sort: Option<Seq<Seq<char>>>) -> Seq<Seq<char>> {
    match sort {
        Some(s) => if known_goods_types(s).len() > 0 {
            known_goods_types(s)
        } else {
            default_goods_types()
        },
        None => default_goods_types(),
    }
}

fn is_goods_type(t: &str) -> (r: bool)
    ensures
        r == default_goods_types().contains(t@),
{
    proof {
        reveal_strlit("card");
        reveal_strlit("article");
        reveal_strlit("resource");
        reveal_strlit("equity");
        assert(default_goods_types()[0] == "card"@);
        assert(default_goods_types()[1] == "article"@);
        assert(default_goods_types()[2] == "resource"@);
        assert(default_goods_types()[3] == "equity"@);
    }
    crate::text::str_eq(t, "card") || crate::text::str_eq(t, "article") || crate::text::str_eq(t, "resource")
        || crate::text::str_eq(t, "equity")
}

/// The kinds of goods to list, given the string entries of the shop's
/// `goods_type_sort` (none when it has no such array).
pub fn configured_goods_types(sort: Option<Vec<String>>) -> (r: Vec<String>)
    ensures
        texts(r@) == goods_types_to_list(match sort {
            Some(v) => Some(texts(v@)),
            None => None,
        }),
{
    let mut known: Vec<String> = Vec::new();
    let ghost given = match &sort {
        Some(v) => texts(v@),
        None => seq![],
    };
    match &sort {
        Some(v) => {
            let mut i: usize = 0;
            while i < v.len()
                invariant
                    i <= v@.len(),
                    given == texts(v@),
                    texts(known@) == known_goods_types(given.take(i as int)),
                decreases v@.len() - i,
            {
                assert(given.take(i + 1).drop_last() =~= given.take(i as int));
                assert(given.take(i + 1).last() == v@[i as int]@);
                if is_goods_type(v[i].as_str()) {
                    let ghost before = known@;
                    known.push(v[i].clone());
                    assert(texts(known@) =~= texts(before).push(v@[i as int]@));
                }
                i = i + 1;
            }
            assert(given.take(i as int) =~= given);
        },
        None => {},
    }
    if sort.is_some() && known.len() > 0 {
        return known;
    }
    let defaults = vec!["card".to_string(), "article".to_string(), "resource".to_string(), "equity".to_string()];
    proof {
        reveal_strlit("card");
        reveal_strlit("article");
        reveal_strlit("resource");
        reveal_strlit("equity");
    }
    assert(texts(defaults@) =~= default_goods_types());
    defaults
}

/// What the catalogue needs of a product's category.
pub struct CategoryRef {
    pub goods_type: String,
    pub id: String,
    pub name: String,
}

/// The key a category is listed under: `goods type:category id`.
pub open spec fn category_key(c: CategoryRef) -> Seq<char> {
    c.goods_type@ + ":"@ + c.id@
}

/// A product names a category when it gives its id or its name.
pub open spec fn category_listed(c: CategoryRef) -> bool {
    c.id@.len() > 0 || c.name@.len() > 0
}

/// Among the first `n` products, the first that names a category with key `k`.
pub open spec fn first_category(cs: Seq<CategoryRef>, k: Seq<char>, n: int) -> Option<int>
    decreases n,
{
    if n <= 0 {
        None
    } else {
        match first_category(cs, k, n - 1) {
            Some(q) => Some(q),
            None => if category_listed(cs[n - 1]) && category_key(cs[n - 1]) == k {
                Some(n - 1)
            } else {
                None
            },
        }
    }
}

/// The keys of the categories the first `n` products name.
pub open spec fn listed_category_keys(cs: Seq<CategoryRef>, n: int) -> Set<Seq<char>>
    decreases n,
{
    if n <= 0 {
        Set::empty()
    } else if category_listed(cs[n - 1]) {
        listed_category_keys(cs, n - 1).insert(category_key(cs[n - 1]))
    } else {
        listed_category_keys(cs, n - 1)
    }
}

proof fn lemma_listed_keys_have_first(cs: Seq<CategoryRef>, k: Seq<char>, n: int)
    requires
        0 <= n <= cs.len(),
    ensures
        listed_category_keys(cs, n).contains(k) <==> first_category(cs, k, n) is Some,
        first_category(cs, k, n) matches Some(q) ==> 0 <= q < n && category_listed(cs[q]) && category_key(cs[q]) == k,
    decreases n,
{
    if n > 0 {
        lemma_listed_keys_have_first(cs, k, n - 1);
    }
}

proof fn lemma_first_category_stays(cs: Seq<CategoryRef>, k: Seq<char>, n: int, m: int)
    requires
        0 < n <= m,
        first_category(cs, k, n) is Some,
    ensures
        first_category(cs, k, m) == first_category(cs, k, n),
    decreases m - n,
{
    if m > n {
        lemma_first_category_stays(cs, k, n, m - 1);
    }
}

fn category_key_exec(c: &CategoryRef) -> (r: String)
    ensures
        r@ == category_key(*c),
{
    let mut k = c.goods_type.clone();
    k.append(":");
    k.append(c.id.as_str());
    k
}

/// The index of the first product naming a category with key `key`.
fn first_category_index(cs: &Vec<CategoryRef>, key: &str) -> (r: Option<usize>)
    ensures
        match r {
            Some(q) => first_category(cs@, key@, cs@.len() as int) == Some(q as int),
            None => first_category(cs@, key@, cs@.len() as int) is None,
        },
{
    let mut q: usize = 0;
    while q < cs.len()
        invariant
            q <= cs@.len(),
            first_category(cs@, key@, q as int) is None,
        decreases cs@.len() - q,
    {
        if (cs[q].id.unicode_len() > 0 || cs[q].name.unicode_len() > 0) && crate::text::str_eq(
            category_key_exec(&cs[q]).as_str(),
            key,
        ) {
            proof {
                lemma_first_category_stays(cs@, key@, q + 1, cs@.len() as int);
            }
            return Some(q);
        }
        q = q + 1;
    }
    None
}

/// The categories of the catalogue, by the products that name them: one
/// per key (the first product naming it), in ascending key order. Gives the
/// indices of those products.
pub fn catalog_category_indices(cs: &Vec<CategoryRef>) -> (r: Vec<usize>)
    ensures
        forall|j: int| 0 <= j < r@.len() ==> r@[j] < cs@.len() && first_category(
            cs@,
            category_key(cs@[#[trigger] r@[j] as int]),
            cs@.len() as int,
        ) == Some(r@[j] as int),
        forall|j: int, l: int| 0 <= j < l < r@.len() ==> seq_lt(
            category_key(cs@[#[trigger] r@[j] as int]),
            category_key(cs@[#[trigger] r@[l] as int]),
        ),
        forall|i: int| 0 <= i < cs@.len() && category_listed(#[trigger] cs@[i]) ==> exists|j: int|
            0 <= j < r@.len() && category_key(cs@[#[trigger] r@[j] as int]) == category_key(cs@[i]),
{
    let n = cs.len();
    let mut keys: Vec<String> = Vec::new();
    let mut i: usize = 0;
    while i < n
        invariant
            n == cs@.len(),
            i <= n,
            strictly_ascending(texts(keys@)),
            texts(keys@).to_set() == listed_category_keys(cs@, i as int),
        decreases n - i,
    {
        if cs[i].id.unicode_len() > 0 || cs[i].name.unicode_len() > 0 {
            let k = category_key_exec(&cs[i]);
            insert_ascending_unique(&mut keys, k);
        }
        i = i + 1;
    }
    let ghost ks = texts(keys@);
    let mut r: Vec<usize> = Vec::new();
    let mut j: usize = 0;
    while j < keys.len()
        invariant
            n == cs@.len(),
            ks == texts(keys@),
            strictly_ascending(ks),
            ks.to_set() == listed_category_keys(cs@, n as int),
            j <= keys@.len(),
            r@.len() == j,
            forall|a: int| 0 <= a < j ==> #[trigger] r@[a] < n && category_key(cs@[r@[a] as int]) == ks[a]
                && first_category(cs@, ks[a], n as int) == Some(r@[a] as int),
        decreases keys@.len() - j,
    {
        proof {
            assert(ks.to_set().contains(ks[j as int]));
            lemma_listed_keys_have_first(cs@, ks[j as int], n as int);
        }
        let q = match first_category_index(cs, keys[j].as_str()) {
            Some(q) => q,
            None => {
                proof {
                    assert(false);
                }
                0
            },
        };
        r.push(q);
        j = j + 1;
    }
    proof {
        assert forall|i: int| 0 <= i < cs@.len() && category_listed(#[trigger] cs@[i]) implies exists|a: int|
            0 <= a < r@.len() && category_key(cs@[#[trigger] r@[a] as int]) == category_key(cs@[i]) by {
            lemma_listed_keys_have_first(cs@, category_key(cs@[i]), n as int);
            assert(first_category(cs@, category_key(cs@[i]), i + 1) is Some);
            lemma_first_category_stays(cs@, category_key(cs@[i]), i + 1, n as int);
            assert(ks.to_set().contains(category_key(cs@[i])));
            let a = choose|a: int| 0 <= a < ks.len() && ks[a] == category_key(cs@[i]);
            assert(category_key(cs@[r@[a] as int]) == ks[a]);
        }
    }
    r
}

/// The text fields a product is shown with (its prices, which are
/// decimals, are read alongside).
#[derive(Debug)]
pub struct GoodsText {
    pub goods_key: String,
    pub goods_type: String,
    pub name: String,
    pub description: String,
    pub image: String,
    pub stock: Option<u64>,
    pub in_stock: bool,
    pub category_id: String,
    pub category_name: String,
    pub purchase_url: String,
}

/// What a product read from the shop (each text already trimmed as the shop
/// sent it) is shown as: nothing without a valid key; an empty type takes
/// the type it was listed under, an empty name reads "未命名商品", the
/// description loses its markup, and a product with unknown stock counts as
/// in stock.
pub open spec fn goods_text_ok(
    r: Option<GoodsText>,
    goods_key: Seq<char>,
    goods_type: Seq<char>,
    name: Seq<char>,
    description: Seq<char>,
    image: Seq<char>,
    link: Seq<char>,
    category_id: Seq<char>,
    category_name: Seq<char>,
    stock: Option<u64>,
    fallback_type: Seq<char>,
) -> bool {
    if !key_accepted(goods_key) {
        r is None
    } else {
        r matches Some(g) && {
            &&& g.goods_key@ == goods_key
            &&& g.goods_type@ == (if goods_type.len() == 0 { fallback_type } else { goods_type })
            &&& g.name@ == (if name.len() == 0 { "未命名商品"@ } else { name })
            &&& g.description@ == plain_text(description)
            &&& g.image@ == image
            &&& g.stock == stock
            &&& g.in_stock == match stock {
                Some(n) => n > 0,
                None => true,
            }
            &&& g.category_id@ == category_id
            &&& g.category_name@ == category_name
            &&& g.purchase_url@ == purchase_url(link, goods_key)
        }
    }
}

/// Builds the text fields of a product (see `goods_text_ok`).
pub fn normalize_product(
    goods_key: String,
    goods_type: String,
    name: String,
    description: &str,
    image: String,
    link: &str,
    category_id: String,
    category_name: String,
    stock: Option<u64>,
    fallback_type: &str,
) -> (r: Option<GoodsText>)
    ensures
        goods_text_ok(
            r,
            goods_key@,
            goods_type@,
            name@,
            description@,
            image@,
            link@,
            category_id@,
            category_name@,
            stock,
            fallback_type@,
        ),
{
    if !valid_key(goods_key.as_str()) {
        return None;
    }
    let goods_type = if goods_type.unicode_len() == 0 {
        fallback_type.to_string()
    } else {
        goods_type
    };
    let name = if name.unicode_len() == 0 {
        "未命名商品".to_string()
    } else {
        name
    };
    let purchase_url = safe_purchase_url(link, goods_key.as_str());
    let in_stock = match stock {
        Some(n) => n > 0,
        None => true,
    };
    Some(
        GoodsText {
            goods_key,
            goods_type,
            name,
            description: strip_html(description),
            image,
            stock,
            in_stock,
            category_id,
            category_name,
            purchase_url,
        },
    )
}

} // verus!
