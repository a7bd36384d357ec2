//! The effector's side of installing a resolver chain: the chain each
//! network service receives (the local resolver first, then the state
//! machine's effective chain), which services count as enabled, and
//! which error the whole installation reports. Running `networksetup`
//! and flushing the caches is the binary's work.

use vstd::prelude::*;

use crate::net::IpAddr;

verus! {

/// Installs resolver chains into a set of macOS network services.
pub struct MacosEffector {
    services: Vec<String>,
    local_resolver: IpAddr,
}

impl MacosEffector {
    /// The network services the chain goes to, by name.
    pub closed spec fn service_names(&self) -> Seq<String> {
        self.services@
    }

    /// The local resolver placed first in every chain.
    pub closed spec fn local(&self) -> IpAddr {
        self.local_resolver
    }

    pub fn new(services: Vec<String>, local_resolver: IpAddr) -> (e: MacosEffector)
        ensures
            e.service_names() == services@,
            e.local() == local_resolver,
    {
        MacosEffector { services, local_resolver }
    }

    /// The network services the chain goes to, in the order they are tried.
    pub fn services(&self) -> (s: &Vec<String>)
        ensures
            s@ == self.service_names(),
    {
        &self.services
    }

    /// The full chain installed into each service: the local resolver,
    /// then `chain` in order.
    pub fn full_chain(&self, chain: &[IpAddr]) -> (full: Vec<IpAddr>)
        ensures
            full@ == seq![self.local()] + chain@,
    {
        let mut full: Vec<IpAddr> = Vec::new();
        full.push(self.local_resolver);
        let n = chain.len();
        let mut i: usize = 0;
        while i < n
            invariant
                n == chain@.len(),
                i <= n,
                full@ == seq![self.local()] + chain@.take(i as int),
            decreases n - i,
        {
            full.push(chain[i]);
            proof {
                assert(chain@.take(i + 1) =~= chain@.take(i as int).push(chain@[i as int]));
                assert(seq![self.local()] + chain@.take(i + 1) =~= (seq![self.local()] + chain@.take(
                    i as int,
                )).push(chain@[i as int]));
            }
            i = i + 1;
        }
        proof {
            assert(chain@.take(n as int) =~= chain@);
        }
        full
    }
}

/// The error an installation reports after one more service was tried:
/// the first error met so far is kept, and a later one is dropped, so
/// every service is still tried and the first failure is the one returned.
pub fn keep_first_error<E>(first: Option<E>, result: Result<(), E>) -> (kept: Option<E>)
    ensures
        kept == (match first {
            Some(e) => Some(e),
            None => match result {
                Ok(()) => None,
                Err(e) => Some(e),
            },
        }),
{
    match first {
        Some(e) => Some(e),
        None => match result {
            Ok(()) => None,
            Err(e) => Some(e),
        },
    }
}

/// White space as Unicode's White_Space property defines it, which is
/// what `char::is_whitespace` and `str::trim` go by.
pub open spec fn is_white_space(c: char) -> bool {
    ||| ('\u{9}' <= c <= '\u{d}')
    ||| c == ' '
    ||| c == '\u{85}'
    ||| c == '\u{a0}'
    ||| c == '\u{1680}'
    ||| ('\u{2000}' <= c <= '\u{200a}')
    ||| c == '\u{2028}'
    ||| c == '\u{2029}'
    ||| c == '\u{202f}'
    ||| c == '\u{205f}'
    ||| c == '\u{3000}'
}

/// The text is the word "enabled" in any ASCII case, with only white
/// space around it: what `networksetup -getnetworkserviceenabled` prints
/// for an enabled service.
pub open spec fn says_enabled(text: Seq<char>) -> bool {
    exists|a: int| #[trigger] enabled_at(text, a)
}

/// The word "enabled", in any ASCII case, starts at `a` in `text`, and
/// everything before and after it is white space.
pub open spec fn enabled_at(text: Seq<char>, a: int) -> bool {
    &&& 0 <= a
    &&& a + 7 <= text.len()
    &&& forall|i: int| 0 <= i < a ==> is_white_space(#[trigger] text[i])
    &&& forall|i: int| a + 7 <= i < text.len() ==> is_white_space(#[trigger] text[i])
    &&& forall|j: int| 0 <= j < 7 ==> (#[trigger] text[a + j] == "enabled"@[j] || text[a + j] == "ENABLED"@[j])
}

fn white_space(c: char) -> (r: bool)
    ensures
        r == is_white_space(c),
{
    ('\u{9}' <= c && c <= '\u{d}') || c == ' ' || c == '\u{85}' || c == '\u{a0}' || c == '\u{1680}'
        || ('\u{2000}' <= c && c <= '\u{200a}') || c == '\u{2028}' || c == '\u{2029}' || c == '\u{202f}'
        || c == '\u{205f}' || c == '\u{3000}'
}

/// Whether the output of `networksetup -getnetworkserviceenabled`
/// says the service is enabled: the text, trimmed of white space, is
/// "enabled" in any ASCII case.
pub fn reports_enabled(text: &str) -> (r: bool)
    ensures
        r == says_enabled(text@),
{
    let mut chars: Vec<char> = Vec::new();
    for c in it: text.chars()
        invariant
            it.seq() == text@,
            chars@ == it.seq().take(it.index()),
    {
        proof {
            assert(it.seq().take(it.index() + 1) =~= it.seq().take(it.index()).push(c));
        }
        chars.push(c);
    }
    proof {
        assert(chars@ =~= text@);
    }
    let n = chars.len();
    let mut a: usize = 0;
    while a < n && white_space(chars[a])
        invariant
            n == chars@.len(),
            a <= n,
            forall|i: int| 0 <= i < a ==> is_white_space(#[trigger] chars@[i]),
        decreases n - a,
    {
        a = a + 1;
    }
    let mut b: usize = n;
    while b > a && white_space(chars[b - 1])
        invariant
            n == chars@.len(),
            a <= b <= n,
            forall|i: int| b <= i < n ==> is_white_space(#[trigger] chars@[i]),
        decreases b,
    {
        b = b - 1;
    }
    // chars[a..b] is the trimmed text.
    let lower: [char; 7] = ['e', 'n', 'a', 'b', 'l', 'e', 'd'];
    let upper: [char; 7] = ['E', 'N', 'A', 'B', 'L', 'E', 'D'];
    proof {
        reveal_strlit("enabled");
        reveal_strlit("ENABLED");
        assert(lower@ =~= "enabled"@);
        assert(upper@ =~= "ENABLED"@);
    }
    if b - a != 7 {
        proof {
            if says_enabled(text@) {
                let a2 = choose|a2: int| enabled_at(text@, a2);
                reveal_strlit("enabled");
                reveal_strlit("ENABLED");
                assert(text@[a2 + 0] == "enabled"@[0] || text@[a2 + 0] == "ENABLED"@[0]);
                assert(text@[a2 + 6] == "enabled"@[6] || text@[a2 + 6] == "ENABLED"@[6]);
                assert(!is_white_space(text@[a2 + 0]));
                assert(!is_white_space(text@[a2 + 6]));
                if a < a2 {
                    assert(is_white_space(text@[a as int]));
                }
                if a2 < a {
                    assert(is_white_space(text@[a2 as int]));
                }
                assert(a == a2);
                if b < a2 + 7 {
                    assert(is_white_space(text@[a2 + 6]));
                }
                if b > a2 + 7 {
                    assert(is_white_space(text@[b - 1]));
                }
                assert(b == a2 + 7);
            }
        }
        return false;
    }
    let mut j: usize = 0;
    while j < 7
        invariant
            n == chars@.len(),
            a + 7 == b <= n,
            j <= 7,
            lower@ == "enabled"@,
            upper@ == "ENABLED"@,
            chars@ == text@,
            forall|i: int| 0 <= i < a ==> is_white_space(#[trigger] chars@[i]),
            forall|i: int| b <= i < n ==> is_white_space(#[trigger] chars@[i]),
            !is_white_space(chars@[a as int]),
            !is_white_space(chars@[b - 1]),
            forall|k: int| 0 <= k < j ==> (#[trigger] chars@[a + k] == lower@[k] || chars@[a + k] == upper@[k]),
        decreases 7 - j,
    {
        let c = chars[a + j];
        if c != lower[j] && c != upper[j] {
            proof {
                if says_enabled(text@) {
                    let a2 = choose|a2: int| enabled_at(text@, a2);
                    assert(text@[a2 + 0] == "enabled"@[0] || text@[a2 + 0] == "ENABLED"@[0]);
                    assert(text@[a2 + 6] == "enabled"@[6] || text@[a2 + 6] == "ENABLED"@[6]);
                    if a < a2 {
                        assert(is_white_space(text@[a as int]));
                    }
                    if a2 < a {
                        assert(is_white_space(text@[a2 as int]));
                    }
                    assert(a == a2);
                    assert(text@[a2 + j] == "enabled"@[j as int] || text@[a2 + j] == "ENABLED"@[j as int]);
                }
            }
            return false;
        }
        j = j + 1;
    }
    proof {
        assert(enabled_at(text@, a as int));
    }
    true
}

} // verus!
