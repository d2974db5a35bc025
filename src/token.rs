//! Tokens: issuing, signing, writing, reading back and checking.
use vstd::prelude::*;
use vstd::utf8::encode_utf8;
use crate::algorithms::Algorithm;
use crate::codec::{
    b64_decode_str, b64_encode, b64_encode_bytes, decode_segment, encode_segment, header_string,
    header_text, lemma_b64_injective, lemma_b64_len, lemma_b64_no_semicolon, named_header, read_header, seg,
    unknown_header,
};
use crate::error::TokenError;
use crate::payload::{
    entry_ok, entry_text, field_ok, lemma_entry_text_no_comma, ItemView, PayloadItem,
};
use crate::signer::{hmac_sha256, hmac_sha256_tag, hmac_sha256_verify};
use crate::text::{
    chars_eq, chars_lt, chars_of, free_of, has_char, join, lemma_join_injective,
    lemma_lex_irreflexive, lemma_lex_total, lemma_lex_transitive, lex_lt, split_on, string_of,
    views,
};

verus! {

/// The version of the wire format that tokens are issued with.
pub const VERSION: u8 = 1;

/// A delimiter-separated web token: header fields, payload and tag. Its entries are always
/// in strictly ascending key order, so a token has one wire form, whatever order its entries
/// were given in.
#[derive(Debug, PartialEq)]
pub struct Token {
    version: u8,
    algorithm: Algorithm,
    payload: Vec<PayloadItem>,
    hash: String,
}

/// The mathematical content of a token.
pub struct TokenView {
    pub version: u8,
    pub algorithm: Algorithm,
    pub payload: Seq<ItemView>,
    pub hash: Seq<char>,
}

/// The views of a sequence of payload entries.
pub open spec fn item_views(v: Seq<PayloadItem>) -> Seq<ItemView> {
    v.map_values(|i: PayloadItem| i@)
}

impl View for Token {
    type V = TokenView;

    closed spec fn view(&self) -> TokenView {
        TokenView {
            version: self.version,
            algorithm: self.algorithm,
            payload: item_views(self.payload@),
            hash: self.hash@,
        }
    }
}

/// The payload text: the entries' texts joined with `,`.
pub open spec fn payload_text(items: Seq<ItemView>) -> Seq<char> {
    join(items.map_values(|i: ItemView| entry_text(i)), ',')
}

/// The signed part of the wire form: the header segment, `;`, the payload segment. The tag
/// covers these encoded bytes, so it binds the version and the algorithm.
pub open spec fn signed_text(t: TokenView) -> Seq<char> {
    seg(header_text(t.version, t.algorithm)) + seq![';'] + seg(payload_text(t.payload))
}

/// The wire form: the signed part, `;`, the tag.
pub open spec fn wire(t: TokenView) -> Seq<char> {
    signed_text(t) + seq![';'] + t.hash
}

/// The tag of a token under `key`: the base64 of the HMAC of its signed part.
pub open spec fn tag_of(key: Seq<u8>, t: TokenView) -> Seq<char> {
    b64_encode(hmac_sha256(key, encode_utf8(signed_text(t))))
}

/// Keys in strictly ascending order.
pub open spec fn sorted(items: Seq<ItemView>) -> bool {
    forall|i: int, j: int| 0 <= i < j < items.len() ==> lex_lt(items[i].key, items[j].key)
}

/// No two entries share a key.
pub open spec fn distinct_keys(items: Seq<ItemView>) -> bool {
    forall|i: int, j: int|
        0 <= i < items.len() && 0 <= j < items.len() && i != j ==> items[i].key != items[j].key
}

/// The two sequences hold the same entries.
pub open spec fn same_elements(a: Seq<ItemView>, b: Seq<ItemView>) -> bool {
    forall|x: ItemView| a.contains(x) <==> b.contains(x)
}

/// Every entry may be issued.
pub open spec fn fields_ok(items: Seq<ItemView>) -> bool {
    forall|i: int| 0 <= i < items.len() ==> field_ok(#[trigger] items[i])
}

/// A payload that can be issued: every field is free of delimiters and no key repeats.
pub open spec fn payload_valid(items: Seq<ItemView>) -> bool {
    fields_ok(items) && distinct_keys(items)
}

/// `t` is the token issued for `alg`, `items` and `key`: current version, the given
/// algorithm, the entries sorted by key, and the tag computed under the key.
pub open spec fn issued(alg: Algorithm, items: Seq<ItemView>, key: Seq<u8>, t: TokenView) -> bool {
    &&& t.version == VERSION
    &&& t.algorithm == alg
    &&& sorted(t.payload)
    &&& same_elements(t.payload, items)
    &&& t.hash == tag_of(key, t)
}

/// A token in the form that parsing reads back: well-formed entries in ascending key order,
/// and a tag without `;`.
pub open spec fn parsable(t: TokenView) -> bool {
    &&& forall|i: int| 0 <= i < t.payload.len() ==> entry_ok(#[trigger] t.payload[i])
    &&& sorted(t.payload)
    &&& !t.hash.contains(';')
}

/// `w` is the wire form of the parsable token `t`.
pub open spec fn parses_to(w: Seq<char>, t: TokenView) -> bool {
    parsable(t) && wire(t) == w
}

/// Entries that parsing reads back: each well formed, keys strictly ascending.
pub open spec fn payload_ok(items: Seq<ItemView>) -> bool {
    &&& forall|i: int| 0 <= i < items.len() ==> entry_ok(#[trigger] items[i])
    &&& sorted(items)
}

/// A wire text made of a header text, a payload text and a tag.
pub open spec fn wire_of_parts(h: Seq<char>, p: Seq<char>, tag: Seq<char>) -> Seq<char> {
    seg(h) + seq![';'] + seg(p) + seq![';'] + tag
}

/// A wire text that is well formed up to its header, which names an algorithm that is not
/// registered.
pub open spec fn unknown_wire(w: Seq<char>) -> bool {
    exists|h: Seq<char>, p: Seq<char>, tag: Seq<char>|
        w == #[trigger] wire_of_parts(h, p, tag) && unknown_header(h) && !tag.contains(';')
}

/// The texts of the entries.
pub open spec fn entry_texts(items: Seq<ItemView>) -> Seq<Seq<char>> {
    items.map_values(|i: ItemView| entry_text(i))
}

/// The wire text of three parts is their join with `;`, and the split gives them back.
proof fn lemma_wire_parts(h: Seq<char>, p: Seq<char>, tag: Seq<char>)
    requires
        !tag.contains(';'),
    ensures
        wire_of_parts(h, p, tag) == join(seq![seg(h), seg(p), tag], ';'),
        free_of(seq![seg(h), seg(p), tag], ';'),
{
    let q = seq![seg(h), seg(p), tag];
    assert(q.drop_last() =~= seq![seg(h), seg(p)]);
    assert(q.drop_last().drop_last() =~= seq![seg(h)]);
    assert(join(q.drop_last().drop_last(), ';') == seg(h));
    assert(join(q.drop_last(), ';') == seg(h) + seq![';'] + seg(p));
    assert(join(q, ';') =~= wire_of_parts(h, p, tag));
    lemma_b64_no_semicolon(encode_utf8(h));
    lemma_b64_no_semicolon(encode_utf8(p));
}

/// Reads payload entries back from the payload text. It succeeds exactly when the text is
/// that of entries with `payload_ok`, and then gives those entries.
fn read_payload(text: &[char]) -> (r: Result<Vec<PayloadItem>, TokenError>)
    ensures
        match r {
            Ok(items) => payload_ok(item_views(items@)) && payload_text(item_views(items@))
                == text@,
            Err(e) => e == TokenError::MalformedToken,
        },
        forall|items: Seq<ItemView>|
            payload_ok(items) && payload_text(items) == text@ ==> (r is Ok && item_views(
                r->Ok_0@,
            ) == items),
{
    if text.len() == 0 {
        let out: Vec<PayloadItem> = Vec::new();
        proof {
            assert(item_views(out@) =~= Seq::<ItemView>::empty());
            assert forall|items: Seq<ItemView>|
                payload_ok(items) && payload_text(items) == text@ implies items.len() == 0 by {
                if items.len() > 0 {
                    lemma_payload_text_nonempty(items);
                }
            }
            assert forall|items: Seq<ItemView>|
                payload_ok(items) && payload_text(items) == text@ implies item_views(out@)
                == items by {
                assert(items =~= Seq::<ItemView>::empty());
            }
        }
        return Ok(out);
    }
    let parts = split_on(text, ',');
    let ghost pv = views(parts@);
    proof {
        assert forall|items: Seq<ItemView>|
            payload_ok(items) && payload_text(items) == text@ implies entry_texts(items) == pv by {
            lemma_entry_texts_free(items);
            if items.len() == 0 {
                assert(text@.len() == 0);
            }
            lemma_join_injective(entry_texts(items), pv, ',');
        }
    }
    let mut out: Vec<PayloadItem> = Vec::new();
    let mut last: Vec<char> = Vec::new();
    let mut j: usize = 0;
    while j < parts.len()
        invariant
            j <= parts@.len(),
            pv == views(parts@),
            out@.len() == j,
            forall|m: int| 0 <= m < j ==> entry_ok(#[trigger] item_views(out@)[m]),
            forall|m: int| 0 <= m < j ==> entry_text(#[trigger] item_views(out@)[m]) == pv[m],
            sorted(item_views(out@)),
            j > 0 ==> last@ == item_views(out@)[j - 1].key,
            forall|items: Seq<ItemView>|
                payload_ok(items) && payload_text(items) == text@ ==> entry_texts(items) == pv
                    && item_views(out@) == items.subrange(0, j as int),
        decreases parts@.len() - j,
    {
        let ghost ov = item_views(out@);
        let item = match PayloadItem::parse_chars(&parts[j]) {
            Ok(x) => x,
            Err(e) => {
                proof {
                    assert forall|items: Seq<ItemView>|
                        !(payload_ok(items) && payload_text(items) == text@) by {
                        if payload_ok(items) && payload_text(items) == text@ {
                            assert(entry_texts(items)[j as int] == pv[j as int]);
                            assert(entry_ok(items[j as int]));
                        }
                    }
                }
                return Err(e);
            },
        };
        let key = chars_of(item.key.as_str());
        if j > 0 && !chars_lt(&last, &key) {
            proof {
                assert forall|items: Seq<ItemView>|
                    !(payload_ok(items) && payload_text(items) == text@) by {
                    if payload_ok(items) && payload_text(items) == text@ {
                        assert(entry_texts(items)[j as int] == pv[j as int]);
                        assert(entry_ok(items[j as int]));
                        assert(items[j as int] == item@);
                        assert(ov[j - 1] == items.subrange(0, j as int)[j - 1]);
                        assert(lex_lt(items[j - 1].key, items[j as int].key));
                    }
                }
            }
            return Err(TokenError::MalformedToken);
        }
        let ghost xv = item@;
        out.push(item);
        proof {
            let nv = item_views(out@);
            assert(nv =~= ov.push(xv));
            assert forall|a: int, b: int| 0 <= a < b < nv.len() implies lex_lt(
                nv[a].key,
                nv[b].key,
            ) by {
                if b == j {
                    if a < j - 1 {
                        lemma_lex_transitive(ov[a].key, ov[j - 1].key, xv.key);
                    }
                } else {
                    assert(nv[a] == ov[a] && nv[b] == ov[b]);
                }
            }
            assert forall|items: Seq<ItemView>|
                payload_ok(items) && payload_text(items) == text@ implies nv == items.subrange(
                0,
                j + 1,
            ) by {
                assert(entry_texts(items)[j as int] == pv[j as int]);
                assert(entry_ok(items[j as int]));
                assert(ov == items.subrange(0, j as int));
                assert(nv =~= items.subrange(0, j + 1));
            }
        }
        last = key;
        j = j + 1;
    }
    proof {
        let ov = item_views(out@);
        assert(entry_texts(ov) =~= pv);
        assert forall|items: Seq<ItemView>|
            payload_ok(items) && payload_text(items) == text@ implies ov == items by {
            assert(items.len() == pv.len());
            assert(ov =~= items);
        }
    }
    Ok(out)
}

/// The entry texts of well-formed entries hold no `,`.
proof fn lemma_entry_texts_free(items: Seq<ItemView>)
    requires
        forall|i: int| 0 <= i < items.len() ==> entry_ok(#[trigger] items[i]),
    ensures
        free_of(entry_texts(items), ','),
        payload_text(items) == join(entry_texts(items), ','),
{
    assert forall|i: int| 0 <= i < entry_texts(items).len() implies !(#[trigger] entry_texts(
        items,
    )[i]).contains(',') by {
        lemma_entry_text_no_comma(items[i]);
    }
    assert(payload_text(items) == join(entry_texts(items), ','));
}

/// The payload text of at least one well-formed entry is not empty.
proof fn lemma_payload_text_nonempty(items: Seq<ItemView>)
    requires
        items.len() > 0,
        forall|i: int| 0 <= i < items.len() ==> entry_ok(#[trigger] items[i]),
    ensures
        payload_text(items).len() > 0,
{
    let t = entry_texts(items);
    lemma_entry_text_no_comma(items[items.len() - 1]);
    assert(t.last() == entry_text(items[items.len() - 1]));
    if t.len() > 1 {
        assert(join(t, ',') == join(t.drop_last(), ',') + seq![','] + t.last());
    }
}

/// A copy of an entry.
fn copy_item(i: &PayloadItem) -> (r: PayloadItem)
    ensures
        r@ == i@,
{
    PayloadItem { key: i.key.clone(), value: i.value.clone(), kind: i.kind }
}

/// Whether an entry may be issued.
fn check_field(i: &PayloadItem) -> (r: bool)
    ensures
        r == field_ok(i@),
{
    let k = chars_of(i.key.as_str());
    let v = chars_of(i.value.as_str());
    k.len() > 0 && !has_char(&k, ';') && !has_char(&k, ',') && !has_char(&k, '=') && !has_char(
        &k,
        ':',
    ) && !has_char(&v, ';') && !has_char(&v, ',') && !has_char(&v, '=')
}

/// The payload text of `items`.
fn payload_string(items: &Vec<PayloadItem>) -> (r: String)
    ensures
        r@ == payload_text(item_views(items@)),
{
    proof {
        reveal_strlit(",");
    }
    let ghost views = item_views(items@);
    let ghost texts = views.map_values(|i: ItemView| entry_text(i));
    let mut s = String::new();
    let mut i: usize = 0;
    while i < items.len()
        invariant
            i <= items@.len(),
            views == item_views(items@),
            texts == views.map_values(|i: ItemView| entry_text(i)),
            s@ == join(texts.subrange(0, i as int), ','),
        decreases items@.len() - i,
    {
        proof {
            reveal_strlit(",");
        }
        let e = items[i].to_string();
        let ghost prev = texts.subrange(0, i as int);
        let ghost s0 = s@;
        if i > 0 {
            s.append(",");
        }
        s.append(e.as_str());
        proof {
            let now = texts.subrange(0, i + 1);
            assert(now.drop_last() =~= prev);
            assert(now.last() == entry_text(views[i as int]));
            assert(views[i as int] == items@[i as int]@);
            if i == 0 {
                assert(s@ =~= join(now, ','));
            } else {
                assert(join(now, ',') == join(prev, ',') + seq![','] + now.last());
                assert(s@ == s0 + seq![','] + e@);
                assert(s@ =~= join(now, ','));
            }
        }
        i = i + 1;
    }
    assert(texts.subrange(0, items@.len() as int) =~= texts);
    s
}

/// Inserting an entry at the place its key belongs keeps the keys sorted.
proof fn lemma_insert_sorted(s: Seq<ItemView>, p: int, x: ItemView)
    requires
        sorted(s),
        0 <= p <= s.len(),
        forall|j: int| 0 <= j < p ==> lex_lt(#[trigger] s[j].key, x.key),
        forall|j: int| p <= j < s.len() ==> lex_lt(x.key, #[trigger] s[j].key),
    ensures
        sorted(s.insert(p, x)),
{
    let t = s.insert(p, x);
    assert forall|a: int, b: int| 0 <= a < b < t.len() implies lex_lt(t[a].key, t[b].key) by {
        if b < p {
            assert(t[a] == s[a] && t[b] == s[b]);
        } else if b == p {
            assert(t[a] == s[a]);
        } else if a < p {
            assert(t[a] == s[a] && t[b] == s[b - 1]);
        } else if a == p {
            assert(t[b] == s[b - 1]);
        } else {
            assert(t[a] == s[a - 1] && t[b] == s[b - 1]);
        }
    }
}

/// The entries of `items` in ascending key order, or `InvalidPayloadField` when two entries
/// share a key.
fn sort_entries(items: &Vec<PayloadItem>) -> (r: Result<Vec<PayloadItem>, TokenError>)
    ensures
        match r {
            Ok(out) => {
                &&& sorted(item_views(out@))
                &&& same_elements(item_views(out@), item_views(items@))
                &&& distinct_keys(item_views(items@))
            },
            Err(e) => e == TokenError::InvalidPayloadField && !distinct_keys(item_views(items@)),
        },
{
    let ghost iv = item_views(items@);
    let mut out: Vec<PayloadItem> = Vec::new();
    let mut keys: Vec<Vec<char>> = Vec::new();
    let mut i: usize = 0;
    while i < items.len()
        invariant
            i <= items@.len(),
            iv == item_views(items@),
            keys@.len() == out@.len(),
            forall|j: int| 0 <= j < out@.len() ==> (#[trigger] keys@[j])@ == out@[j].key@,
            sorted(item_views(out@)),
            same_elements(item_views(out@), iv.subrange(0, i as int)),
            distinct_keys(iv.subrange(0, i as int)),
        decreases items@.len() - i,
    {
        let x = copy_item(&items[i]);
        let kx = chars_of(x.key.as_str());
        let ghost ov = item_views(out@);
        let ghost xv = x@;
        assert(xv == iv[i as int]);
        let mut p: usize = 0;
        loop
            invariant
                p <= out@.len(),
                keys@.len() == out@.len(),
                forall|j: int| 0 <= j < out@.len() ==> (#[trigger] keys@[j])@ == out@[j].key@,
                ov == item_views(out@),
                forall|j: int| 0 <= j < p ==> lex_lt(#[trigger] ov[j].key, kx@),
            ensures
                p <= out@.len(),
                forall|j: int| 0 <= j < p ==> lex_lt(#[trigger] ov[j].key, kx@),
                p == out@.len() || !lex_lt(ov[p as int].key, kx@),
            decreases out@.len() - p,
        {
            if p >= out.len() {
                break;
            }
            if !chars_lt(&keys[p], &kx) {
                assert(keys@[p as int]@ == ov[p as int].key);
                break;
            }
            assert(keys@[p as int]@ == ov[p as int].key);
            p = p + 1;
        }
        if p < out.len() && chars_eq(&keys[p], &kx) {
            proof {
                assert(keys@[p as int]@ == ov[p as int].key);
                assert(ov.contains(ov[p as int]));
                let j = choose|j: int| 0 <= j < i && iv.subrange(0, i as int)[j] == ov[p as int];
                assert(iv[j] == iv.subrange(0, i as int)[j]);
                assert(iv[j].key == iv[i as int].key);
            }
            return Err(TokenError::InvalidPayloadField);
        }
        proof {
            assert forall|j: int| p <= j < ov.len() implies lex_lt(kx@, #[trigger] ov[j].key) by {
                assert(keys@[p as int]@ == ov[p as int].key);
                lemma_lex_total(kx@, ov[p as int].key);
                if j > p {
                    lemma_lex_transitive(kx@, ov[p as int].key, ov[j].key);
                }
            }
            lemma_insert_sorted(ov, p as int, xv);
        }
        let ghost old_out = out@;
        let ghost old_keys = keys@;
        out.insert(p, x);
        keys.insert(p, kx);
        proof {
            let nv = item_views(out@);
            assert(nv =~= ov.insert(p as int, xv));
            let prev = iv.subrange(0, i as int);
            let next = iv.subrange(0, i + 1);
            assert(next =~= prev.push(xv));
            assert forall|y: ItemView| nv.contains(y) <==> next.contains(y) by {
                if nv.contains(y) {
                    let k = choose|k: int| 0 <= k < nv.len() && nv[k] == y;
                    if k < p {
                        assert(ov[k] == y);
                        assert(ov.contains(y));
                        assert(prev.contains(y));
                    } else if k > p {
                        assert(ov[k - 1] == y);
                        assert(ov.contains(y));
                        assert(prev.contains(y));
                    }
                    if prev.contains(y) {
                        let m = choose|m: int| 0 <= m < prev.len() && prev[m] == y;
                        assert(next[m] == y);
                    } else {
                        assert(next[i as int] == y);
                    }
                }
                if next.contains(y) {
                    let m = choose|m: int| 0 <= m < next.len() && next[m] == y;
                    if m < i {
                        assert(prev[m] == y);
                        assert(prev.contains(y));
                        assert(ov.contains(y));
                        let k = choose|k: int| 0 <= k < ov.len() && ov[k] == y;
                        if k < p {
                            assert(nv[k] == y);
                        } else {
                            assert(nv[k + 1] == y);
                        }
                    } else {
                        assert(nv[p as int] == y);
                    }
                }
            }
            assert forall|a: int, b: int|
                0 <= a < next.len() && 0 <= b < next.len() && a != b implies next[a].key
                != next[b].key by {
                if a < i && b < i {
                    assert(next[a] == prev[a] && next[b] == prev[b]);
                } else {
                    let m = if a < i {
                        a
                    } else {
                        b
                    };
                    assert(next[m] == prev[m]);
                    assert(prev.contains(prev[m]));
                    assert(ov.contains(prev[m]));
                    let k = choose|k: int| 0 <= k < ov.len() && ov[k] == prev[m];
                    if k < p {
                        lemma_lex_irreflexive(kx@);
                    } else {
                        lemma_lex_irreflexive(kx@);
                    }
                }
            }
            assert forall|j: int| 0 <= j < out@.len() implies (#[trigger] keys@[j])@
                == out@[j].key@ by {
                if j < p {
                    assert(keys@[j] == old_keys[j] && out@[j] == old_out[j]);
                } else if j > p {
                    assert(keys@[j] == old_keys[j - 1] && out@[j] == old_out[j - 1]);
                }
            }
        }
        i = i + 1;
    }
    assert(iv.subrange(0, items@.len() as int) =~= iv);
    Ok(out)
}

impl Token {
    /// The entries are in strictly ascending key order, hence no key repeats.
    #[verifier::type_invariant]
    spec fn keys_ascending(self) -> bool {
        sorted(item_views(self.payload@))
    }

    /// The wire-format version.
    pub fn version(&self) -> (r: u8)
        ensures
            r == self@.version,
    {
        self.version
    }

    /// The algorithm of the tag.
    pub fn algorithm(&self) -> (r: Algorithm)
        ensures
            r == self@.algorithm,
    {
        self.algorithm
    }

    /// The payload entries, in strictly ascending key order.
    pub fn payload(&self) -> (r: &Vec<PayloadItem>)
        ensures
            item_views(r@) == self@.payload,
            sorted(self@.payload),
    {
        proof {
            use_type_invariant(self);
        }
        &self.payload
    }

    /// The tag, as written in the wire form.
    pub fn hash(&self) -> (r: &String)
        ensures
            r@ == self@.hash,
    {
        &self.hash
    }

    /// Issues a token: checks every entry, puts the entries in ascending key order, and
    /// signs header and payload with `key`. It fails with `InvalidPayloadField` exactly when
    /// a key or value holds `;`, `,` or `=`, a key is empty or holds `:`, or two entries share
    /// a key.
    pub fn new(algorithm: Algorithm, payload: Vec<PayloadItem>, key: &str) -> (r: Result<
        Token,
        TokenError,
    >)
        ensures
            r is Ok <==> payload_valid(item_views(payload@)),
            match r {
                Ok(t) => issued(algorithm, item_views(payload@), encode_utf8(key@), t@),
                Err(e) => e == TokenError::InvalidPayloadField,
            },
    {
        let ghost iv = item_views(payload@);
        let mut i: usize = 0;
        while i < payload.len()
            invariant
                i <= payload@.len(),
                iv == item_views(payload@),
                forall|j: int| 0 <= j < i ==> field_ok(#[trigger] iv[j]),
            decreases payload@.len() - i,
        {
            if !check_field(&payload[i]) {
                assert(!field_ok(iv[i as int]));
                return Err(TokenError::InvalidPayloadField);
            }
            i = i + 1;
        }
        let entries = match sort_entries(&payload) {
            Ok(e) => e,
            Err(e) => {
                return Err(e);
            },
        };
        let unsigned = Token { version: VERSION, algorithm, payload: entries, hash: String::new() };
        let h = unsigned.get_hash(key);
        let t = Token { version: VERSION, algorithm, payload: unsigned.payload, hash: h };
        assert(signed_text(t@) == signed_text(unsigned@));
        Ok(t)
    }

    /// Reads a token from its wire form, without checking its tag. It succeeds exactly when
    /// the text is the wire form of a parsable token, and then gives that token. It fails
    /// with `UnknownAlgorithm` exactly when the text is well formed up to a header naming an
    /// algorithm that is not registered, and with `MalformedToken` otherwise.
    #[verifier::rlimit(60)]
    pub fn parse(w: &str) -> (r: Result<Token, TokenError>)
        ensures
            match r {
                Ok(t) => parses_to(w@, t@) && !unknown_wire(w@),
                Err(e) => (e == TokenError::UnknownAlgorithm) == unknown_wire(w@) && (e
                    == TokenError::UnknownAlgorithm || e == TokenError::MalformedToken),
            },
            forall|t: TokenView| parses_to(w@, t) ==> (r is Ok && r->Ok_0@ == t),
    {
        let cs = chars_of(w);
        let parts = split_on(&cs, ';');
        let ghost pv = views(parts@);
        proof {
            assert forall|h: Seq<char>, p: Seq<char>, tag: Seq<char>|
                w@ == #[trigger] wire_of_parts(h, p, tag) && !tag.contains(';') implies pv
                == seq![seg(h), seg(p), tag] by {
                lemma_wire_parts(h, p, tag);
                lemma_join_injective(pv, seq![seg(h), seg(p), tag], ';');
            }
            assert forall|t: TokenView| parses_to(w@, t) implies w@ == wire_of_parts(
                header_text(t.version, t.algorithm),
                payload_text(t.payload),
                t.hash,
            ) by {
                assert(wire(t) =~= wire_of_parts(
                    header_text(t.version, t.algorithm),
                    payload_text(t.payload),
                    t.hash,
                ));
            }
        }
        if parts.len() != 3 {
            proof {
                Self::lemma_no_parts(w@, pv);
            }
            return Err(TokenError::MalformedToken);
        }
        let hs = string_of(&parts[0]);
        let ps = string_of(&parts[1]);
        let tag = string_of(&parts[2]);
        assert(pv[0] == hs@ && pv[1] == ps@ && pv[2] == tag@);
        let htext = match decode_segment(hs.as_str()) {
            Ok(x) => x,
            Err(e) => {
                proof {
                    Self::lemma_no_parts(w@, pv);
                }
                return Err(e);
            },
        };
        let ptext = match decode_segment(ps.as_str()) {
            Ok(x) => x,
            Err(e) => {
                proof {
                    Self::lemma_no_parts(w@, pv);
                }
                return Err(e);
            },
        };
        proof {
            assert forall|h: Seq<char>, p: Seq<char>, tg: Seq<char>|
                w@ == #[trigger] wire_of_parts(h, p, tg) && !tg.contains(';') implies h == htext@
                && p == ptext@ && tg == tag@ by {
                assert(pv == seq![seg(h), seg(p), tg]);
            }
            assert(w@ == wire_of_parts(htext@, ptext@, tag@)) by {
                lemma_wire_parts(htext@, ptext@, tag@);
                assert(pv =~= seq![seg(htext@), seg(ptext@), tag@]);
            }
            assert(!tag@.contains(';'));
        }
        let hc = chars_of(htext.as_str());
        let (version, algorithm) = match read_header(&hc) {
            Ok(x) => x,
            Err(e) => {
                return Err(e);
            },
        };
        let pc = chars_of(ptext.as_str());
        let payload = match read_payload(&pc) {
            Ok(x) => x,
            Err(e) => {
                return Err(e);
            },
        };
        let t = Token { version, algorithm, payload, hash: tag };
        assert(wire(t@) =~= wire_of_parts(htext@, ptext@, t.hash@));
        Ok(t)
    }

    /// A wire text whose split on `;` is not that of three segments is neither a token's wire
    /// form nor well formed up to its header.
    proof fn lemma_no_parts(w: Seq<char>, pv: Seq<Seq<char>>)
        requires
            forall|h: Seq<char>, p: Seq<char>, tag: Seq<char>|
                w == #[trigger] wire_of_parts(h, p, tag) && !tag.contains(';') ==> pv == seq![
                    seg(h),
                    seg(p),
                    tag,
                ],
            forall|t: TokenView|
                parses_to(w, t) ==> w == wire_of_parts(
                    header_text(t.version, t.algorithm),
                    payload_text(t.payload),
                    t.hash,
                ),
            pv.len() != 3 || (forall|x: Seq<char>| seg(x) != pv[0]) || (forall|x: Seq<char>|
                seg(x) != pv[1]),
        ensures
            !unknown_wire(w),
            forall|t: TokenView| !parses_to(w, t),
    {
        assert forall|h: Seq<char>, p: Seq<char>, tag: Seq<char>|
            !(w == #[trigger] wire_of_parts(h, p, tag) && !tag.contains(';')) by {
            if w == wire_of_parts(h, p, tag) && !tag.contains(';') {
                assert(pv == seq![seg(h), seg(p), tag]);
            }
        }
        assert forall|t: TokenView| !parses_to(w, t) by {
            if parses_to(w, t) {
                let h = header_text(t.version, t.algorithm);
                let p = payload_text(t.payload);
                assert(!(w == wire_of_parts(h, p, t.hash) && !t.hash.contains(';')));
            }
        }
    }

    /// The header segment, `;`, the payload segment: the bytes that the tag covers.
    fn signed_string(&self) -> (r: String)
        ensures
            r@ == signed_text(self@),
    {
        proof {
            reveal_strlit(";");
        }
        let h = header_string(self.version, self.algorithm);
        let p = payload_string(&self.payload);
        let mut s = encode_segment(h.as_str());
        let ps = encode_segment(p.as_str());
        s.append(";");
        s.append(ps.as_str());
        assert(s@ =~= signed_text(self@));
        s
    }

    /// The tag of this token's header and payload under `key`.
    pub fn get_hash(&self, key: &str) -> (r: String)
        ensures
            r@ == tag_of(encode_utf8(key@), self@),
            r@.len() == 44,
            !r@.contains(';'),
            sorted(self@.payload),
    {
        proof {
            use_type_invariant(self);
        }
        let s = self.signed_string();
        let mac = hmac_sha256_tag(key.as_bytes(), s.as_str().as_bytes());
        proof {
            lemma_b64_len(mac@);
            lemma_b64_no_semicolon(mac@);
        }
        b64_encode_bytes(mac.as_slice())
    }

    /// The wire form `header;payload;tag`.
    pub fn to_wire(&self) -> (r: String)
        ensures
            r@ == wire(self@),
            sorted(self@.payload),
    {
        proof {
            use_type_invariant(self);
        }
        proof {
            reveal_strlit(";");
        }
        let mut s = self.signed_string();
        s.append(";");
        s.append(self.hash.as_str());
        assert(s@ =~= wire(self@));
        s
    }

    /// Whether the tag is the one `key` gives for this token's header and payload. The tags
    /// are compared in constant time.
    pub fn validate(&self, key: &str) -> (r: bool)
        ensures
            r == (self@.hash == tag_of(encode_utf8(key@), self@)),
            sorted(self@.payload),
    {
        proof {
            use_type_invariant(self);
        }
        let s = self.signed_string();
        match b64_decode_str(self.hash.as_str()) {
            Ok(tag) => {
                proof {
                    let mac = hmac_sha256(encode_utf8(key@), encode_utf8(signed_text(self@)));
                    if self.hash@ == b64_encode(mac) {
                        lemma_b64_injective(tag@, mac);
                    }
                }
                hmac_sha256_verify(key.as_bytes(), s.as_str().as_bytes(), tag.as_slice())
            },
            Err(_) => false,
        }
    }

    /// The entry with that key, if there is one.
    pub fn get_payload_item(&self, key: &str) -> (r: Option<&PayloadItem>)
        ensures
            match r {
                Some(x) => exists|i: int|
                    0 <= i < self@.payload.len() && self@.payload[i] == x@ && x.key@ == key@
                        && forall|j: int| 0 <= j < i ==> self@.payload[j].key != key@,
                None => forall|i: int| 0 <= i < self@.payload.len() ==> self@.payload[i].key != key@,
            },
    {
        let k = chars_of(key);
        let mut i: usize = 0;
        while i < self.payload.len()
            invariant
                i <= self.payload@.len(),
                k@ == key@,
                forall|j: int| 0 <= j < i ==> self.payload@[j].key@ != key@,
            decreases self.payload@.len() - i,
        {
            let c = chars_of(self.payload[i].key.as_str());
            assert(self@.payload[i as int] == self.payload@[i as int]@);
            if chars_eq(&c, &k) {
                return Some(&self.payload[i]);
            }
            i = i + 1;
        }
        None
    }
}

/// Two sequences of entries with keys in strictly ascending order that hold the same entries
/// are equal.
pub proof fn lemma_sorted_unique(s1: Seq<ItemView>, s2: Seq<ItemView>)
    requires
        sorted(s1),
        sorted(s2),
        same_elements(s1, s2),
    ensures
        s1 == s2,
    decreases s1.len(),
{
    if s1.len() == 0 {
        if s2.len() > 0 {
            assert(s2.contains(s2[0]));
        }
        assert(s1 =~= s2);
    } else {
        assert(s1.contains(s1[0]));
        let k = choose|k: int| 0 <= k < s2.len() && s2[k] == s1[0];
        assert(s2.contains(s2[0]));
        let m = choose|m: int| 0 <= m < s1.len() && s1[m] == s2[0];
        if k > 0 {
            if m > 0 {
                lemma_lex_transitive(s1[0].key, s2[0].key, s1[0].key);
                lemma_lex_irreflexive(s1[0].key);
            } else {
                lemma_lex_irreflexive(s1[0].key);
            }
        }
        assert(s1[0] == s2[0]);
        let t1 = s1.drop_first();
        let t2 = s2.drop_first();
        assert forall|y: ItemView| t1.contains(y) <==> t2.contains(y) by {
            if t1.contains(y) {
                let a = choose|a: int| 0 <= a < t1.len() && t1[a] == y;
                assert(s1[a + 1] == y);
                assert(s1.contains(y));
                let b = choose|b: int| 0 <= b < s2.len() && s2[b] == y;
                if b == 0 {
                    lemma_lex_irreflexive(y.key);
                }
                assert(t2[b - 1] == y);
            }
            if t2.contains(y) {
                let a = choose|a: int| 0 <= a < t2.len() && t2[a] == y;
                assert(s2[a + 1] == y);
                assert(s2.contains(y));
                let b = choose|b: int| 0 <= b < s1.len() && s1[b] == y;
                if b == 0 {
                    lemma_lex_irreflexive(y.key);
                }
                assert(t1[b - 1] == y);
            }
        }
        assert(sorted(t1)) by {
            assert forall|a: int, b: int| 0 <= a < b < t1.len() implies lex_lt(
                t1[a].key,
                t1[b].key,
            ) by {
                assert(t1[a] == s1[a + 1] && t1[b] == s1[b + 1]);
            }
        }
        assert(sorted(t2)) by {
            assert forall|a: int, b: int| 0 <= a < b < t2.len() implies lex_lt(
                t2[a].key,
                t2[b].key,
            ) by {
                assert(t2[a] == s2[a + 1] && t2[b] == s2[b + 1]);
            }
        }
        lemma_sorted_unique(t1, t2);
        assert(s1 =~= s2) by {
            assert forall|i: int| 0 <= i < s1.len() implies s1[i] == s2[i] by {
                if i > 0 {
                    assert(s1[i] == t1[i - 1]);
                    assert(s2[i] == t2[i - 1]);
                }
            }
        }
    }
}

/// Round trip: a token issued for a valid payload is parsable and its wire form is what
/// `Token::parse` reads back into it, with the same header, payload and tag; and its tag is
/// the one its key gives, so `Token::validate` with that key accepts it.
pub proof fn lemma_round_trip(alg: Algorithm, items: Seq<ItemView>, key: Seq<u8>, t: TokenView)
    requires
        payload_valid(items),
        issued(alg, items, key, t),
    ensures
        parses_to(wire(t), t),
        t.hash == tag_of(key, t),
{
    assert forall|i: int| 0 <= i < t.payload.len() implies entry_ok(#[trigger] t.payload[i]) by {
        assert(t.payload.contains(t.payload[i]));
        assert(items.contains(t.payload[i]));
        let j = choose|j: int| 0 <= j < items.len() && items[j] == t.payload[i];
        assert(field_ok(items[j]));
    }
    lemma_b64_no_semicolon(hmac_sha256(key, encode_utf8(signed_text(t))));
}

/// Determinism: issuing the same entries, in any order, with the same algorithm and key
/// gives the same token, hence the same wire form.
pub proof fn lemma_issue_deterministic(
    alg: Algorithm,
    a: Seq<ItemView>,
    b: Seq<ItemView>,
    key: Seq<u8>,
    t1: TokenView,
    t2: TokenView,
)
    requires
        same_elements(a, b),
        issued(alg, a, key, t1),
        issued(alg, b, key, t2),
    ensures
        t1 == t2,
        wire(t1) == wire(t2),
{
    assert(same_elements(t1.payload, t2.payload));
    lemma_sorted_unique(t1.payload, t2.payload);
    assert(signed_text(t1) == signed_text(t2));
    assert(t1.hash == t2.hash);
}

/// Tampering: a text that differs from a token's wire form at a position inside its header
/// or payload segment does not carry the same signed part. If it parses, the token it gives
/// signs a different message, so its tag is checked against the MAC of that other message.
pub proof fn lemma_tamper(t: TokenView, w: Seq<char>, i: int, t2: TokenView)
    requires
        w.len() == wire(t).len(),
        0 <= i < signed_text(t).len(),
        w[i] != wire(t)[i],
        parses_to(w, t2),
    ensures
        signed_text(t2) != signed_text(t),
{
    if signed_text(t2) == signed_text(t) {
        assert(w[i] == signed_text(t2)[i]);
        assert(wire(t)[i] == signed_text(t)[i]);
    }
}

/// Tampering with the tag: a text that differs from the wire form of a parsable token, whose
/// tag is the one `key` gives, at one position inside the tag segment (by a character other
/// than `;`) parses, if at all, into a token with the same signed part and another tag, which
/// `key` rejects.
pub proof fn lemma_tamper_tag(t: TokenView, key: Seq<u8>, w: Seq<char>, i: int, t2: TokenView)
    requires
        parsable(t),
        t.hash == tag_of(key, t),
        w.len() == wire(t).len(),
        signed_text(t).len() < i < w.len(),
        w[i] != wire(t)[i],
        w[i] != ';',
        forall|j: int| 0 <= j < w.len() && j != i ==> w[j] == wire(t)[j],
        parses_to(w, t2),
    ensures
        signed_text(t2) == signed_text(t),
        t2.hash != tag_of(key, t2),
{
    let h = header_text(t.version, t.algorithm);
    let p = payload_text(t.payload);
    let k = i - signed_text(t).len() - 1;
    let forged = t.hash.update(k, w[i]);
    assert(w =~= wire_of_parts(h, p, forged));
    assert(!forged.contains(';')) by {
        if forged.contains(';') {
            let m = choose|m: int| 0 <= m < forged.len() && forged[m] == ';';
            assert(t.hash[m] == ';');
        }
    }
    let h2 = header_text(t2.version, t2.algorithm);
    let p2 = payload_text(t2.payload);
    assert(wire(t2) =~= wire_of_parts(h2, p2, t2.hash));
    lemma_wire_parts(h, p, forged);
    lemma_wire_parts(h2, p2, t2.hash);
    lemma_join_injective(seq![seg(h), seg(p), forged], seq![seg(h2), seg(p2), t2.hash], ';');
    assert(seq![seg(h), seg(p), forged][2] == seq![seg(h2), seg(p2), t2.hash][2]);
    assert(seq![seg(h), seg(p), forged][0] == seq![seg(h2), seg(p2), t2.hash][0]);
    assert(seq![seg(h), seg(p), forged][1] == seq![seg(h2), seg(p2), t2.hash][1]);
    assert(forged[k] != t.hash[k]);
}

/// The codec sees a payload as a set of entries: two tokens with the same version, algorithm
/// and entries, in whatever order the entries were given, have the same payload sequence,
/// the same payload text and signed part, and the same tag under any key. (Every token keeps
/// its keys ascending; `Token::payload`, `to_wire`, `get_hash` and `validate` state it.)
pub proof fn lemma_order_free(t1: TokenView, t2: TokenView, key: Seq<u8>)
    requires
        sorted(t1.payload),
        sorted(t2.payload),
        same_elements(t1.payload, t2.payload),
        t1.version == t2.version,
        t1.algorithm == t2.algorithm,
    ensures
        t1.payload == t2.payload,
        payload_text(t1.payload) == payload_text(t2.payload),
        signed_text(t1) == signed_text(t2),
        tag_of(key, t1) == tag_of(key, t2),
        t1.hash == t2.hash ==> wire(t1) == wire(t2),
{
    lemma_sorted_unique(t1.payload, t2.payload);
}

/// Unknown algorithm: a wire text whose header is well formed but names an algorithm that is
/// not registered, followed by any payload segment and a tag without `;`, is `unknown_wire`,
/// so `Token::parse` fails on it with `UnknownAlgorithm` rather than defaulting.
pub proof fn lemma_unknown_algorithm(version: u8, name: Seq<char>, p: Seq<char>, tag: Seq<char>)
    requires
        !name.contains('/'),
        Algorithm::named(name) is None,
        !tag.contains(';'),
    ensures
        unknown_wire(wire_of_parts(named_header(version, name), p, tag)),
{
    assert(unknown_header(named_header(version, name)));
}

/// Delimiter rejection: a payload with an entry whose key or value holds `;`, `,` or `=` is
/// not valid, so `Token::new` fails on it with `InvalidPayloadField`.
pub proof fn lemma_delimiter_rejected(items: Seq<ItemView>, i: int, c: char)
    requires
        0 <= i < items.len(),
        c == ';' || c == ',' || c == '=',
        items[i].key.contains(c) || items[i].value.contains(c),
    ensures
        !payload_valid(items),
{
    assert(!field_ok(items[i]));
}

impl std::str::FromStr for Token {
    type Err = TokenError;

    /// Reads a token from its wire form; see [`Token::parse`].
    fn from_str(s: &str) -> (r: Result<Token, TokenError>)
        ensures
            match r {
                Ok(t) => parses_to(s@, t@) && !unknown_wire(s@),
                Err(e) => (e == TokenError::UnknownAlgorithm) == unknown_wire(s@) && (e
                    == TokenError::UnknownAlgorithm || e == TokenError::MalformedToken),
            },
            forall|t: TokenView| parses_to(s@, t) ==> (r is Ok && r->Ok_0@ == t),
    {
        Token::parse(s)
    }
}

} // verus!
