use vstd::prelude::*;
use crate::error::FlockError;
use crate::text::{
    str_to_chars, chars_to_string, chars_range, find_char_at, find_first, lemma_find_first,
    parse_u16_chars, parse_u16_spec, u16_to_chars, dec_digits,
};

verus! {

/// A gateway instance's reachable address, the directory's subscriber
/// identity. Serialized as `"host:port"`; equality is structural.
#[derive(Clone, Debug, PartialEq, Eq)]
pub struct TargetInfo {
    pub host: String,
    pub port: u16,
}

/// What parsing `"host:port"` yields: everything before the first colon is
/// the host, the rest must read as a decimal port.
pub open spec fn spec_parse_target(s: Seq<char>) -> Option<(Seq<char>, u16)> {
    match find_first(s, ':') {
        None => None,
        Some(i) => match parse_u16_spec(s.subrange(i + 1, s.len() as int)) {
            Some(p) => Some((s.subrange(0, i), p)),
            None => None,
        },
    }
}

impl TargetInfo {
    /// The `"host:port"` rendering this target serializes to.
    pub open spec fn text(self) -> Seq<char> {
        self.host@ + seq![':'] + dec_digits(self.port as nat)
    }

    /// Renders the target as `"host:port"`, in place of `Display`.
    pub fn to_text(&self) -> (r: String)
        ensures
            r@ == self.text(),
    {
        let mut v = str_to_chars(self.host.as_str());
        v.push(':');
        let mut d = u16_to_chars(self.port);
        v.append(&mut d);
        proof {
            assert(v@ =~= self.host@ + seq![':'] + dec_digits(self.port as nat));
        }
        chars_to_string(&v)
    }

    /// Splits `"host:port"` at the first colon; anything else is an
    /// internal error, as a malformed directory member is not the caller's
    /// fault.
    pub fn from_str(my_str: &str) -> (r: Result<TargetInfo, FlockError>)
        ensures
            match r {
                Ok(t) => spec_parse_target(my_str@) == Some((t.host@, t.port)),
                Err(e) => spec_parse_target(my_str@) is None && e == FlockError::InternalError,
            },
    {
        let chars = str_to_chars(my_str);
        match find_char_at(&chars, ':') {
            None => Err(FlockError::InternalError),
            Some(i) => {
                proof {
                    lemma_find_first(chars@, ':');
                }
                proof {
                    assert(chars@.subrange(i + 1, chars@.len() as int) =~= chars@.subrange(
                        i as int + 1,
                        chars@.len() as int,
                    ));
                }
                match parse_u16_chars(chars.as_slice(), i + 1) {
                    None => Err(FlockError::InternalError),
                    Some(port) => {
                        let host_chars = chars_range(&chars, 0, i);
                        let host = chars_to_string(&host_chars);
                        Ok(TargetInfo { host, port })
                    },
                }
            },
        }
    }
}

} // verus!
