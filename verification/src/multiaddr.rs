use vstd::prelude::*;
use vstd::string::StrSliceExecFns;
use vstd::string::StringExecFns;

use crate::text::{ends_with, is_suffix_of};

verus! {

/// The separator that precedes a peer identifier inside a textual
/// multiaddress.
pub open spec fn p2p_sep() -> Seq<char> {
    "/p2p/"@
}

/// The trailing marker of a relayed (circuit) multiaddress.
pub open spec fn circuit_marker() -> Seq<char> {
    "/p2p-circuit"@
}

/// `c` marks a trailing peer-id component: the five characters starting at `c`
/// read `/p2p/` and everything after them is a non-empty run with no further
/// separator.
pub open spec fn is_peer_cut(s: Seq<char>, c: int) -> bool {
    &&& 0 <= c
    &&& c + 5 < s.len()
    &&& s.subrange(c, c + 5) == p2p_sep()
    &&& forall|j: int| c + 5 <= j < s.len() ==> s[j] != '/'
}

/// True when `s` ends in a peer-id component.
pub open spec fn has_trailing_peer(s: Seq<char>) -> bool {
    exists|c: int| is_peer_cut(s, c)
}

/// The position where the trailing peer-id component starts.
pub open spec fn peer_cut(s: Seq<char>) -> int {
    choose|c: int| is_peer_cut(s, c)
}

/// The peer identifier of a trailing peer-id component.
pub open spec fn trailing_peer_of(s: Seq<char>) -> Seq<char> {
    s.subrange(peer_cut(s) + 5, s.len() as int)
}

/// The address left when the trailing peer-id component is split off.
pub open spec fn peer_prefix_of(s: Seq<char>) -> Seq<char> {
    s.subrange(0, peer_cut(s))
}

/// A trailing peer-id component can start in only one place.
pub proof fn lemma_peer_cut_unique(s: Seq<char>, c1: int, c2: int)
    requires
        is_peer_cut(s, c1),
        is_peer_cut(s, c2),
    ensures
        c1 == c2,
{
    reveal_strlit("/p2p/");
    assert(s.subrange(c1, c1 + 5)[4] == s[c1 + 4]);
    assert(s.subrange(c2, c2 + 5)[4] == s[c2 + 4]);
    assert(s[c1 + 4] == '/');
    assert(s[c2 + 4] == '/');
    if c1 < c2 {
        assert(c1 + 5 <= c2 + 4 < s.len());
        assert(s[c2 + 4] != '/');
    } else if c2 < c1 {
        assert(c2 + 5 <= c1 + 4 < s.len());
        assert(s[c1 + 4] != '/');
    }
}

/// The position of the last separator in `s`, if any.
fn last_slash(s: &str) -> (r: Option<usize>)
    ensures
        match r {
            Some(k) => k < s@.len() && s@[k as int] == '/' && (forall|j: int|
                k < j < s@.len() ==> s@[j] != '/'),
            None => forall|j: int| 0 <= j < s@.len() ==> s@[j] != '/',
        },
{
    let n = s.unicode_len();
    let mut i: usize = n;
    while i > 0
        invariant
            i <= n,
            n == s@.len(),
            forall|j: int| i <= j < s@.len() ==> s@[j] != '/',
        decreases i,
    {
        i -= 1;
        if s.get_char(i) == '/' {
            return Some(i);
        }
    }
    None
}

/// Splits a trailing peer-id component off a textual multiaddress: for
/// `<prefix>/p2p/<id>` it returns `(<prefix>, <id>)`; for an address that does
/// not end in such a component it returns nothing.
pub fn split_trailing_peer(s: &str) -> (r: Option<(String, String)>)
    ensures
        match r {
            Some(parts) => {
                &&& has_trailing_peer(s@)
                &&& parts.0@ == peer_prefix_of(s@)
                &&& parts.1@ == trailing_peer_of(s@)
            },
            None => !has_trailing_peer(s@),
        },
{
    let n = s.unicode_len();
    match last_slash(s) {
        None => {
            proof {
                if has_trailing_peer(s@) {
                    let c = peer_cut(s@);
                    assert(is_peer_cut(s@, c));
                    reveal_strlit("/p2p/");
                    assert(s@.subrange(c, c + 5)[0] == s@[c]);
                    assert(s@[c] == '/');
                }
            }
            None
        },
        Some(k) => {
            proof {
                // Any cut would place its closing separator exactly at `k`.
                if has_trailing_peer(s@) {
                    let c = peer_cut(s@);
                    assert(is_peer_cut(s@, c));
                    reveal_strlit("/p2p/");
                    assert(s@.subrange(c, c + 5)[4] == s@[c + 4]);
                    assert(s@[c + 4] == '/');
                    if c + 4 < k {
                        assert(s@[k as int] != '/');
                    }
                    if c + 4 > k {
                        assert(s@[c + 4] != '/');
                    }
                    assert(c + 4 == k);
                }
            }
            if k + 1 >= n {
                proof {
                    if has_trailing_peer(s@) {
                        let c = peer_cut(s@);
                        assert(c + 5 < s@.len());
                    }
                }
                None
            } else if k >= 4 && s.get_char(k - 4) == '/' && s.get_char(k - 3) == 'p'
                && s.get_char(k - 2) == '2' && s.get_char(k - 1) == 'p' {
                let pre = String::from_str(s.substring_char(0, k - 4));
                let id = String::from_str(s.substring_char(k + 1, n));
                proof {
                    reveal_strlit("/p2p/");
                    assert(is_peer_cut(s@, k - 4)) by {
                        assert(s@.subrange(k - 4, k + 1) =~= p2p_sep());
                    }
                    lemma_peer_cut_unique(s@, peer_cut(s@), k - 4);
                }
                Some((pre, id))
            } else {
                proof {
                    if has_trailing_peer(s@) {
                        let c = peer_cut(s@);
                        reveal_strlit("/p2p/");
                        assert(c == k - 4);
                        assert(s@.subrange(c, c + 5)[0] == s@[c]);
                        assert(s@.subrange(c, c + 5)[1] == s@[c + 1]);
                        assert(s@.subrange(c, c + 5)[2] == s@[c + 2]);
                        assert(s@.subrange(c, c + 5)[3] == s@[c + 3]);
                        assert(s@[k - 4] == '/' && s@[k - 3] == 'p' && s@[k - 2] == '2' && s@[k
                            - 1] == 'p');
                    }
                }
                None
            }
        },
    }
}

/// The physical address of a relay: the address with a trailing circuit
/// marker, if present, split off.
pub open spec fn spec_physical(s: Seq<char>) -> Seq<char> {
    if is_suffix_of(circuit_marker(), s) {
        s.subrange(0, s.len() - circuit_marker().len())
    } else {
        s
    }
}

/// The relay's own peer identifier, when the physical address ends in a
/// peer-id component.
pub open spec fn spec_relay_peer(s: Seq<char>) -> Option<Seq<char>> {
    if has_trailing_peer(spec_physical(s)) {
        Some(trailing_peer_of(spec_physical(s)))
    } else {
        Option::None
    }
}

/// What the relay bootstrap logic decides from the configured relay address:
/// which peer identifier to treat as the relay, which address to dial now, and
/// which address to listen on once the relay connection is up.
pub struct RelayPlan {
    /// The relay's peer identifier, when the address carries one.
    pub relay_peer: Option<String>,
    /// The physical address of the relay, dialled at startup.
    pub dial_addr: String,
    /// The configured address, circuit marker included, passed to `listen_on`
    /// once the relay connection is established.
    pub listen_addr: String,
}

/// Splits the configured relay address into the relay bootstrap plan.
pub fn relay_plan(relay_address: &str) -> (r: RelayPlan)
    ensures
        r.listen_addr@ == relay_address@,
        r.dial_addr@ == spec_physical(relay_address@),
        match r.relay_peer {
            Some(p) => spec_relay_peer(relay_address@) == Some(p@),
            None => spec_relay_peer(relay_address@) is None,
        },
{
    let n = relay_address.unicode_len();
    let physical: String = if ends_with(relay_address, "/p2p-circuit") {
        proof {
            reveal_strlit("/p2p-circuit");
        }
        String::from_str(relay_address.substring_char(0, n - 12))
    } else {
        String::from_str(relay_address)
    };
    let relay_peer = match split_trailing_peer(physical.as_str()) {
        Some(parts) => Some(parts.1),
        None => None,
    };
    RelayPlan { relay_peer, dial_addr: physical, listen_addr: String::from_str(relay_address) }
}

} // verus!
