//! Payload entries: a key, a value and an optional declared type, written `key=value` or
//! `key:type=value`.
use vstd::prelude::*;
use crate::error::TokenError;
use crate::text::{chars_of, find_char, has_char, string_of, sub_chars};
use crate::types::PayloadType;

verus! {

/// One entry of a token's payload.
#[derive(Debug, Clone, PartialEq)]
pub struct PayloadItem {
    /// The entry's key.
    pub key: String,
    /// The entry's value.
    pub value: String,
    /// The declared type of the value, for typed entries.
    pub kind: Option<PayloadType>,
}

/// The mathematical content of a payload entry.
pub struct ItemView {
    pub key: Seq<char>,
    pub kind: Option<PayloadType>,
    pub value: Seq<char>,
}

impl View for PayloadItem {
    type V = ItemView;

    open spec fn view(&self) -> ItemView {
        ItemView { key: self.key@, kind: self.kind, value: self.value@ }
    }
}

/// The text of the type annotation: `:` and the type's name, or nothing.
pub open spec fn kind_text(kind: Option<PayloadType>) -> Seq<char> {
    match kind {
        Some(t) => seq![':'] + t.name(),
        None => Seq::empty(),
    }
}

/// The text of an entry: `key=value`, or `key:type=value` for a typed entry.
pub open spec fn entry_text(i: ItemView) -> Seq<char> {
    i.key + kind_text(i.kind) + seq!['='] + i.value
}

/// An entry that a payload can carry and that reads back unambiguously: a non-empty key
/// free of `,`, `=` and `:`, and a value free of `,`.
pub open spec fn entry_ok(i: ItemView) -> bool {
    &&& i.key.len() > 0
    &&& !i.key.contains(',')
    &&& !i.key.contains('=')
    &&& !i.key.contains(':')
    &&& !i.value.contains(',')
}

/// An entry that a payload may be issued with: its key and value hold none of the reserved
/// delimiters `;`, `,` and `=`, the key is not empty and does not hold `:` either (a `:`
/// before the `=` announces the type).
pub open spec fn field_ok(i: ItemView) -> bool {
    &&& i.key.len() > 0
    &&& !i.key.contains(';')
    &&& !i.key.contains(',')
    &&& !i.key.contains('=')
    &&& !i.key.contains(':')
    &&& !i.value.contains(';')
    &&& !i.value.contains(',')
    &&& !i.value.contains('=')
}

impl PayloadItem {
    /// An untyped entry whose value is the displayed form of `value`.
    pub fn new<T: std::fmt::Display>(key: &str, value: T) -> (r: PayloadItem)
        ensures
            r.key@ == key@,
            r.kind is None,
            vstd::string::to_string_from_display_ensures::<T>(&value, r.value),
    {
        PayloadItem { key: key.to_owned(), value: value.to_string(), kind: None }
    }

    /// A typed entry.
    pub fn typed(key: &str, kind: PayloadType, value: &str) -> (r: PayloadItem)
        ensures
            r.key@ == key@,
            r.kind == Some(kind),
            r.value@ == value@,
    {
        PayloadItem { key: key.to_owned(), value: value.to_owned(), kind: Some(kind) }
    }

    /// The entry as written in a payload.
    pub fn to_string(&self) -> (r: String)
        ensures
            r@ == entry_text(self@),
    {
        proof {
            reveal_strlit(":");
            reveal_strlit("=");
        }
        let mut s = self.key.clone();
        match self.kind {
            Some(t) => {
                s.append(":");
                let n = t.to_string();
                s.append(n.as_str());
            },
            None => {},
        }
        s.append("=");
        s.append(self.value.as_str());
        assert(s@ =~= entry_text(self@));
        s
    }

    /// Reads an entry from its text. It succeeds exactly when the text is that of an entry
    /// with `entry_ok`, and then gives that entry, which is unique.
    #[verifier::rlimit(40)]
    pub fn parse_chars(s: &[char]) -> (r: Result<PayloadItem, TokenError>)
        ensures
            match r {
                Ok(x) => entry_ok(x@) && entry_text(x@) == s@,
                Err(e) => e == TokenError::MalformedToken,
            },
            forall|y: ItemView|
                entry_ok(y) && entry_text(y) == s@ ==> (r is Ok && r->Ok_0@ == y),
    {
        let eq = match find_char(s, '=') {
            Some(e) => e,
            None => {
                proof {
                    assert forall|y: ItemView| entry_ok(y) implies entry_text(y) != s@ by {
                        let k = (y.key.len() + kind_text(y.kind).len()) as int;
                        assert(entry_text(y)[k] == '=');
                    }
                }
                return Err(TokenError::MalformedToken);
            },
        };
        let n: usize = s.len();
        assert(eq < n);
        let head = sub_chars(s, 0, eq);
        let value = sub_chars(s, eq + 1, n);
        proof {
            Self::lemma_parse_fails(s@, eq as int);
        }
        let (key, kind) = match find_char(&head, ':') {
            Some(k) => {
                let name = sub_chars(&head, k + 1, head.len());
                match PayloadType::from_name_chars(&name) {
                    Some(t) => {
                        proof {
                            assert forall|y: ItemView| entry_ok(y) && entry_text(y) == s@ implies {
                                &&& y.key == head@.subrange(0, k as int)
                                &&& y.kind == Some(t)
                            } by {
                                Self::lemma_head(head@, y);
                                if y.kind is None {
                                    assert(head@[k as int] == ':');
                                }
                            }
                        }
                        (sub_chars(&head, 0, k), Some(t))
                    },
                    None => {
                        proof {
                            assert forall|y: ItemView| entry_ok(y) implies entry_text(y) != s@ by {
                                if entry_text(y) == s@ {
                                    Self::lemma_head(head@, y);
                                    if y.kind is None {
                                        assert(head@[k as int] == ':');
                                    } else {
                                        y.kind->0.lemma_name();
                                    }
                                }
                            }
                        }
                        return Err(TokenError::MalformedToken);
                    },
                }
            },
            None => {
                proof {
                    assert forall|y: ItemView| entry_ok(y) && entry_text(y) == s@ implies {
                        &&& y.key == head@
                        &&& y.kind is None
                    } by {
                        Self::lemma_head(head@, y);
                    }
                }
                (head, None)
            },
        };
        if key.len() == 0 || has_char(&key, ',') || has_char(&value, ',') {
            return Err(TokenError::MalformedToken);
        }
        let item = PayloadItem { key: string_of(&key), value: string_of(&value), kind };
        proof {
            assert(!key@.contains('=')) by {
                if key@.contains('=') {
                    let j = choose|j: int| 0 <= j < key@.len() && key@[j] == '=';
                    assert(s@[j] == '=');
                }
            }
            assert(!key@.contains(':')) by {
                if key@.contains(':') {
                    let j = choose|j: int| 0 <= j < key@.len() && key@[j] == ':';
                    assert(head@[j] == ':');
                }
            }
            match kind {
                Some(t) => {
                    t.lemma_name();
                    assert(head@ =~= key@ + kind_text(kind));
                },
                None => {},
            }
            assert(entry_text(item@) =~= s@);
        }
        Ok(item)
    }

    /// Of a text whose first `=` stands at `eq`, every well-formed entry with that text
    /// has its key and type annotation before `eq` and its value after.
    proof fn lemma_parse_fails(s: Seq<char>, eq: int)
        requires
            0 <= eq < s.len(),
            s[eq] == '=',
            forall|j: int| 0 <= j < eq ==> s[j] != '=',
        ensures
            forall|y: ItemView|
                entry_ok(y) && entry_text(y) == s ==> {
                    &&& y.key + kind_text(y.kind) == s.subrange(0, eq)
                    &&& y.value == s.subrange(eq + 1, s.len() as int)
                },
    {
        assert forall|y: ItemView| entry_ok(y) && entry_text(y) == s implies {
            &&& y.key + kind_text(y.kind) == s.subrange(0, eq)
            &&& y.value == s.subrange(eq + 1, s.len() as int)
        } by {
            let kt = kind_text(y.kind);
            let k = (y.key.len() + kt.len()) as int;
            assert(s[k] == '=');
            match y.kind {
                Some(t) => {
                    t.lemma_name();
                },
                None => {},
            }
            if eq < k {
                if eq < y.key.len() {
                    assert(y.key[eq] == s[eq]);
                } else {
                    assert(kt[eq - y.key.len()] == s[eq]);
                }
            }
            assert(eq == k);
            assert(y.key + kt =~= s.subrange(0, eq));
            assert(y.value =~= s.subrange(eq + 1, s.len() as int));
        }
    }
}

impl PayloadItem {
    /// Where the type annotation of a well-formed entry starts, within the text before its `=`.
    proof fn lemma_head(head: Seq<char>, y: ItemView)
        requires
            entry_ok(y),
            y.key + kind_text(y.kind) == head,
        ensures
            forall|j: int| 0 <= j < y.key.len() ==> head[j] != ':',
            head.subrange(0, y.key.len() as int) == y.key,
            match y.kind {
                Some(t) => {
                    &&& y.key.len() < head.len()
                    &&& head[y.key.len() as int] == ':'
                    &&& head.subrange(y.key.len() as int + 1, head.len() as int) == t.name()
                },
                None => !head.contains(':') && head == y.key,
            },
    {
        assert forall|j: int| 0 <= j < y.key.len() implies head[j] != ':' by {
            assert(head[j] == y.key[j]);
        }
        assert(head.subrange(0, y.key.len() as int) =~= y.key);
        match y.kind {
            Some(t) => {
                assert(head[y.key.len() as int] == kind_text(y.kind)[0]);
                assert(head.subrange(y.key.len() as int + 1, head.len() as int) =~= t.name());
            },
            None => {
                assert(head =~= y.key);
            },
        }
    }
}

/// The text of a well-formed entry is not empty and holds no `,`.
pub proof fn lemma_entry_text_no_comma(i: ItemView)
    requires
        entry_ok(i),
    ensures
        !entry_text(i).contains(','),
        entry_text(i).len() > 0,
{
    let t = entry_text(i);
    let kt = kind_text(i.kind);
    match i.kind {
        Some(k) => {
            k.lemma_name();
        },
        None => {},
    }
    if t.contains(',') {
        let j = choose|j: int| 0 <= j < t.len() && t[j] == ',';
        if j < i.key.len() {
            assert(i.key[j] == ',');
        } else if j < i.key.len() + kt.len() {
            assert(kt[j - i.key.len()] == ',');
            if j > i.key.len() {
                assert(i.kind->0.name()[j - i.key.len() - 1] == ',');
            }
        } else if j > i.key.len() + kt.len() {
            assert(i.value[j - i.key.len() - kt.len() - 1] == ',');
        }
    }
}

impl std::str::FromStr for PayloadItem {
    type Err = TokenError;

    /// Reads an entry written `key=value` or `key:type=value`.
    fn from_str(s: &str) -> (r: Result<PayloadItem, TokenError>)
        ensures
            match r {
                Ok(x) => entry_ok(x@) && entry_text(x@) == s@,
                Err(e) => e == TokenError::MalformedToken,
            },
            forall|y: ItemView|
                entry_ok(y) && entry_text(y) == s@ ==> (r is Ok && r->Ok_0@ == y),
    {
        let c = chars_of(s);
        PayloadItem::parse_chars(&c)
    }
}

} // verus!
