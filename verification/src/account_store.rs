//! Validation of the values sent to the account shop.
use vstd::prelude::*;

use crate::text::{is_ws, string_from, trim, trim_chars, utf8_len, utf8_len_exceeds};

verus! {

/// A goods number is accepted when, once trimmed, it is non-empty and at most
/// 64 bytes long.
pub open spec fn goods_no_accepted(raw: Seq<char>) -> bool {
    trim(raw).len() > 0 && utf8_len(trim(raw)) <= 64
}

/// Trims a goods number and rejects an empty or over-long one.
pub fn validated_goods_no(goods_no: String) -> (r: Result<String, String>)
    ensures
        goods_no_accepted(goods_no@) <==> r is Ok,
        r matches Ok(v) ==> v@ == trim(goods_no@),
        r matches Err(e) ==> e@ == "商品编号无效。"@,
{
    let trimmed = trim_chars(goods_no.as_str());
    if trimmed.len() == 0 || utf8_len_exceeds(trimmed.as_slice(), 64) {
        return Err("商品编号无效。".to_string());
    }
    Ok(string_from(trimmed.as_slice()))
}

/// A trade number is accepted when, once trimmed, it is non-empty and at most
/// 128 bytes long.
pub open spec fn trade_no_accepted(raw: Seq<char>) -> bool {
    trim(raw).len() > 0 && utf8_len(trim(raw)) <= 128
}

/// Trims an order (trade) number before its status is queried.
pub fn validated_trade_no(trade_no: String) -> (r: Result<String, String>)
    ensures
        trade_no_accepted(trade_no@) <==> r is Ok,
        r matches Ok(v) ==> v@ == trim(trade_no@),
        r matches Err(e) ==> e@ == "订单编号无效。"@,
{
    let trimmed = trim_chars(trade_no.as_str());
    if trimmed.len() == 0 || utf8_len_exceeds(trimmed.as_slice(), 128) {
        return Err("订单编号无效。".to_string());
    }
    Ok(string_from(trimmed.as_slice()))
}

/// `e` (already trimmed) is a usable contact address: at most 254 bytes, no
/// whitespace, exactly one `@` with a non-empty local part before it, and a
/// domain after it that holds a dot but neither starts nor ends with one.
pub open spec fn email_accepted(e: Seq<char>) -> bool {
    &&& utf8_len(e) <= 254
    &&& forall|i: int| 0 <= i < e.len() ==> !is_ws(#[trigger] e[i])
    &&& exists|k: int|
        #![trigger e[k]]
        {
            &&& 0 < k < e.len() - 1
            &&& e[k] == '@'
            &&& forall|j: int| 0 <= j < e.len() && j != k ==> #[trigger] e[j] != '@'
            &&& e.subrange(k + 1, e.len() as int).contains('.')
            &&& e[k + 1] != '.'
            &&& e.last() != '.'
        }
}

/// Trims a contact e-mail address and checks its shape.
pub fn validated_email(contact_email: String) -> (r: Result<String, String>)
    ensures
        email_accepted(trim(contact_email@)) <==> r is Ok,
        r matches Ok(v) ==> v@ == trim(contact_email@),
        r matches Err(e) ==> e@ == "请填写有效的联系邮箱。"@,
{
    let e = trim_chars(contact_email.as_str());
    let n = e.len();
    let ghost s = e@;
    let mut ok = !utf8_len_exceeds(e.as_slice(), 254);
    // position of the first `@`, and whether a second one was seen
    let mut at: usize = n;
    let mut second_at = false;
    let mut i: usize = 0;
    while i < n
        invariant
            n == s.len(),
            e@ == s,
            i <= n,
            ok ==> forall|j: int| 0 <= j < i ==> !is_ws(#[trigger] s[j]),
            ok ==> utf8_len(s) <= 254,
            !ok ==> (utf8_len(s) > 254 || exists|j: int| 0 <= j < i && is_ws(#[trigger] s[j])),
            at <= n,
            at < n ==> at < i && s[at as int] == '@',
            at < n ==> forall|j: int| 0 <= j < at ==> #[trigger] s[j] != '@',
            at == n ==> forall|j: int| 0 <= j < i ==> #[trigger] s[j] != '@',
            second_at ==> at < n,
            second_at <==> (at < n && exists|j: int| at < j < i && #[trigger] s[j] == '@'),
        decreases n - i,
    {
        let c = e[i];
        if crate::text::is_ws_char(c) {
            ok = false;
        }
        if c == '@' {
            if at == n {
                at = i;
            } else {
                second_at = true;
            }
        }
        i = i + 1;
    }
    if !ok || at == n || second_at || at == 0 || at + 1 >= n {
        proof {
            if email_accepted(s) {
                let k = choose|k: int|
                    #![trigger s[k]]
                    {
                        &&& 0 < k < s.len() - 1
                        &&& s[k] == '@'
                        &&& forall|j: int| 0 <= j < s.len() && j != k ==> #[trigger] s[j] != '@'
                        &&& s.subrange(k + 1, s.len() as int).contains('.')
                        &&& s[k + 1] != '.'
                        &&& s.last() != '.'
                    };
                if at < n {
                    assert(at == k);
                    if second_at {
                        let j = choose|j: int| at < j < n && #[trigger] s[j] == '@';
                        assert(s[j] != '@');
                    }
                } else {
                    assert(s[k] != '@');
                }
            }
        }
        return Err("请填写有效的联系邮箱。".to_string());
    }
    // the domain: everything after the single `@`
    let mut has_dot = false;
    let mut d = at + 1;
    while d < n
        invariant
            e@ == s,
            n == s.len(),
            at + 1 <= d <= n,
            has_dot <==> exists|j: int| at + 1 <= j < d && #[trigger] s[j] == '.',
        decreases n - d,
    {
        if e[d] == '.' {
            has_dot = true;
        }
        d = d + 1;
    }
    let ghost dom = s.subrange(at + 1, n as int);
    assert(has_dot <==> dom.contains('.')) by {
        if has_dot {
            let j = choose|j: int| at + 1 <= j < n && #[trigger] s[j] == '.';
            assert(dom[j - at - 1] == '.');
        }
        if dom.contains('.') {
            let j = choose|j: int| 0 <= j < dom.len() && dom[j] == '.';
            assert(s[j + at + 1] == '.');
        }
    }
    if !has_dot || e[at + 1] == '.' || e[n - 1] == '.' {
        proof {
            if email_accepted(s) {
                let k = choose|k: int|
                    #![trigger s[k]]
                    {
                        &&& 0 < k < s.len() - 1
                        &&& s[k] == '@'
                        &&& forall|j: int| 0 <= j < s.len() && j != k ==> #[trigger] s[j] != '@'
                        &&& s.subrange(k + 1, s.len() as int).contains('.')
                        &&& s[k + 1] != '.'
                        &&& s.last() != '.'
                    };
                assert(at == k) by {
                    if at != k {
                        assert(s[at as int] != '@');
                    }
                }
            }
        }
        return Err("请填写有效的联系邮箱。".to_string());
    }
    proof {
        assert forall|j: int| 0 <= j < s.len() && j != at implies #[trigger] s[j] != '@' by {
            if j > at && s[j] == '@' {
                assert(second_at);
            }
        }
        assert(s[at as int] == '@');
    }
    Ok(string_from(e.as_slice()))
}

/// The shop hands back a payment address; only an `https://` one is followed.
pub open spec fn pay_url_is_secure(url: Seq<char>) -> bool {
    url.len() >= 8 && url.subrange(0, 8) == "https://"@
}

/// A goods number that passes validation passes it again unchanged: the
/// stored value needs no second normalisation.
pub proof fn law_validated_goods_no_is_stable(raw: Seq<char>)
    requires
        goods_no_accepted(raw),
    ensures
        goods_no_accepted(trim(raw)),
        trim(trim(raw)) == trim(raw),
{
    crate::text::lemma_trim_idempotent(raw);
}

/// The same holds of a trade number.
pub proof fn law_validated_trade_no_is_stable(raw: Seq<char>)
    requires
        trade_no_accepted(raw),
    ensures
        trade_no_accepted(trim(raw)),
        trim(trim(raw)) == trim(raw),
{
    crate::text::lemma_trim_idempotent(raw);
}

} // verus!
