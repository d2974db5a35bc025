//! The value types that a typed payload entry may declare.
use vstd::prelude::*;
use crate::text::{chars_eq, chars_of};

verus! {

/// The declared type of a payload value. It is metadata: it travels with the value but
/// does not change how the value is written.
#[derive(Debug, Clone, Copy, PartialEq, Eq, Structural)]
pub enum PayloadType {
    /// A UUID.
    UUID,
    /// Free text.
    String,
    /// An integer.
    Int,
    /// A floating-point number.
    Float,
    /// A boolean.
    Bool,
}

impl PayloadType {
    /// The name written in an entry, after the `:`.
    pub open spec fn name(self) -> Seq<char> {
        match self {
            PayloadType::UUID => seq!['u', 'u', 'i', 'd'],
            PayloadType::String => seq!['s', 't', 'r', 'i', 'n', 'g'],
            PayloadType::Int => seq!['i', 'n', 't'],
            PayloadType::Float => seq!['f', 'l', 'o', 'a', 't'],
            PayloadType::Bool => seq!['b', 'o', 'o', 'l'],
        }
    }

    /// The type of that name, if any.
    pub open spec fn named(n: Seq<char>) -> Option<PayloadType> {
        if n == PayloadType::UUID.name() {
            Some(PayloadType::UUID)
        } else if n == PayloadType::String.name() {
            Some(PayloadType::String)
        } else if n == PayloadType::Int.name() {
            Some(PayloadType::Int)
        } else if n == PayloadType::Float.name() {
            Some(PayloadType::Float)
        } else if n == PayloadType::Bool.name() {
            Some(PayloadType::Bool)
        } else {
            None
        }
    }

    /// Each type is found again from its name, and a name holds no delimiter of the
    /// payload grammar.
    pub proof fn lemma_name(self)
        ensures
            PayloadType::named(self.name()) == Some(self),
            !self.name().contains(':'),
            !self.name().contains('='),
            !self.name().contains(','),
    {
        let n = self.name();
        assert(PayloadType::UUID.name() =~= seq!['u', 'u', 'i', 'd']);
        assert(PayloadType::String.name() =~= seq!['s', 't', 'r', 'i', 'n', 'g']);
        assert(PayloadType::Int.name() =~= seq!['i', 'n', 't']);
        assert(PayloadType::Float.name() =~= seq!['f', 'l', 'o', 'a', 't']);
        assert(PayloadType::Bool.name() =~= seq!['b', 'o', 'o', 'l']);
        if n.contains(':') || n.contains('=') || n.contains(',') {
            let k = choose|k: int| 0 <= k < n.len() && (n[k] == ':' || n[k] == '=' || n[k] == ',');
            assert(n[k] != ':' && n[k] != '=' && n[k] != ',');
        }
        match self {
            PayloadType::UUID => {},
            PayloadType::String => {
                assert(n[0] != PayloadType::UUID.name()[0]);
            },
            PayloadType::Int => {
                assert(n.len() != PayloadType::UUID.name().len());
                assert(n.len() != PayloadType::String.name().len());
            },
            PayloadType::Float => {
                assert(n.len() != PayloadType::UUID.name().len());
                assert(n.len() != PayloadType::String.name().len());
                assert(n.len() != PayloadType::Int.name().len());
            },
            PayloadType::Bool => {
                assert(n[0] != PayloadType::UUID.name()[0]);
                assert(n.len() != PayloadType::String.name().len());
                assert(n.len() != PayloadType::Int.name().len());
                assert(n.len() != PayloadType::Float.name().len());
            },
        }
    }

    /// The name, as a string.
    pub fn to_string(&self) -> (r: String)
        ensures
            r@ == self.name(),
    {
        proof {
            reveal_strlit("uuid");
            reveal_strlit("string");
            reveal_strlit("int");
            reveal_strlit("float");
            reveal_strlit("bool");
        }
        let s = match self {
            PayloadType::UUID => "uuid".to_owned(),
            PayloadType::String => "string".to_owned(),
            PayloadType::Int => "int".to_owned(),
            PayloadType::Float => "float".to_owned(),
            PayloadType::Bool => "bool".to_owned(),
        };
        assert(s@ =~= self.name());
        s
    }

    /// Looks a type up by the characters of its name, which must match exactly.
    pub fn from_name_chars(n: &[char]) -> (r: Option<PayloadType>)
        ensures
            r == PayloadType::named(n@),
    {
        proof {
            reveal_strlit("uuid");
            reveal_strlit("string");
            reveal_strlit("int");
            reveal_strlit("float");
            reveal_strlit("bool");
        }
        let uuid = chars_of("uuid");
        let string = chars_of("string");
        let integer = chars_of("int");
        let float = chars_of("float");
        let boolean = chars_of("bool");
        assert(uuid@ =~= PayloadType::UUID.name());
        assert(string@ =~= PayloadType::String.name());
        assert(integer@ =~= PayloadType::Int.name());
        assert(float@ =~= PayloadType::Float.name());
        assert(boolean@ =~= PayloadType::Bool.name());
        if chars_eq(n, &uuid) {
            Some(PayloadType::UUID)
        } else if chars_eq(n, &string) {
            Some(PayloadType::String)
        } else if chars_eq(n, &integer) {
            Some(PayloadType::Int)
        } else if chars_eq(n, &float) {
            Some(PayloadType::Float)
        } else if chars_eq(n, &boolean) {
            Some(PayloadType::Bool)
        } else {
            None
        }
    }

    /// Looks a type up by its name, which must match exactly.
    pub fn from_name(n: &str) -> (r: Option<PayloadType>)
        ensures
            r == PayloadType::named(n@),
    {
        let c = chars_of(n);
        PayloadType::from_name_chars(&c)
    }
}

impl PayloadType {
    /// The type of that name, matched exactly; an unknown name gives the message
    /// `Invalid PayloadType: <name>`.
    pub fn parse(s: &str) -> (r: Result<PayloadType, String>)
        ensures
            match r {
                Ok(t) => PayloadType::named(s@) == Some(t),
                Err(m) => PayloadType::named(s@) is None && m@ == "Invalid PayloadType: "@ + s@,
            },
    {
        match PayloadType::from_name(s) {
            Some(t) => Ok(t),
            None => {
                let mut msg = "Invalid PayloadType: ".to_owned();
                msg.append(s);
                Err(msg)
            },
        }
    }
}

impl std::str::FromStr for PayloadType {
    type Err = String;

    /// Reads a type name; see [`PayloadType::parse`].
    fn from_str(s: &str) -> (r: Result<PayloadType, String>)
        ensures
            match r {
                Ok(t) => PayloadType::named(s@) == Some(t),
                Err(m) => PayloadType::named(s@) is None && m@ == "Invalid PayloadType: "@ + s@,
            },
    {
        PayloadType::parse(s)
    }
}

} // verus!
