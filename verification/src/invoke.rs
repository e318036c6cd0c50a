//! Invocation targets: the `Service/handler` and `Object/key/handler`
//! addresses a caller writes on the command line, and the request path they
//! turn into.

use vstd::prelude::*;

verus! {

/// What an invocation addresses: a service's handler, or a handler of one
/// keyed object of a virtual object service.
pub enum InvocationTarget {
    Service { service: String, method: String },
    Object { service: String, key: String, method: String },
}

/// Why a target string was refused.
#[derive(Clone, Copy, Debug, PartialEq, Eq, Structural)]
pub enum InvokeError {
    InvalidTarget,
}

/// The positions of every `/` in a string, in order.
pub open spec fn sep_positions(s: Seq<char>) -> Seq<int>
    decreases s.len(),
{
    if s.len() == 0 {
        Seq::empty()
    } else {
        let rest = sep_positions(s.drop_last());
        if s.last() == '/' {
            rest.push(s.len() - 1)
        } else {
            rest
        }
    }
}

impl InvocationTarget {
    /// Parses a target: `service/method` names a service handler,
    /// `service/key/method` a handler of one object. Any other shape — no
    /// separator, or three or more — is refused.
    pub fn from_str(s: &str) -> (r: Result<InvocationTarget, InvokeError>)
        ensures
            ({
                let ps = sep_positions(s@);
                if ps.len() == 1 {
                    r matches Ok(t) && (t matches InvocationTarget::Service { service, method }
                        && service@ == s@.take(ps[0])
                        && method@ == s@.skip(ps[0] + 1))
                } else if ps.len() == 2 {
                    r matches Ok(t) && (t matches InvocationTarget::Object {
                        service,
                        key,
                        method,
                    } && service@ == s@.take(ps[0])
                        && key@ == s@.subrange(ps[0] + 1, ps[1])
                        && method@ == s@.skip(ps[1] + 1))
                } else {
                    r matches Err(e) && e == InvokeError::InvalidTarget
                }
            }),
    {
        let n = s.unicode_len();
        let mut found: Vec<usize> = Vec::new();
        let mut i: usize = 0;
        while i < n
            invariant
                n == s@.len(),
                i <= n,
                found@.map(|k: int, p: usize| p as int) == sep_positions(s@.take(i as int)),
                forall|k: int| 0 <= k < found@.len() ==> (#[trigger] found@[k]) < i,
            decreases n - i,
        {
            let c = s.get_char(i);
            let ghost before = found@;
            if c == '/' {
                found.push(i);
                proof {
                    assert(found@.map(|k: int, p: usize| p as int) =~= before.map(
                        |k: int, p: usize| p as int).push(i as int));
                }
            }
            i = i + 1;
            proof {
                assert(s@.take(i as int).drop_last() =~= s@.take(i - 1));
                assert(s@.take(i as int).last() == s@[i - 1]);
            }
        }
        proof {
            assert(s@.take(n as int) =~= s@);
        }
        if found.len() == 1 {
            let p0 = found[0];
            let service = s.substring_char(0, p0).to_owned();
            let method = s.substring_char(p0 + 1, n).to_owned();
            proof {
                assert(service@ =~= s@.take(p0 as int));
                assert(method@ =~= s@.skip(p0 as int + 1));
            }
            Result::Ok(InvocationTarget::Service { service, method })
        } else if found.len() == 2 {
            let p0 = found[0];
            let p1 = found[1];
            proof {
                lemma_sep_positions_sorted(s@);
                assert(sep_positions(s@)[0] < sep_positions(s@)[1]);
            }
            let service = s.substring_char(0, p0).to_owned();
            let key = s.substring_char(p0 + 1, p1).to_owned();
            let method = s.substring_char(p1 + 1, n).to_owned();
            proof {
                assert(service@ =~= s@.take(p0 as int));
                assert(key@ =~= s@.subrange(p0 as int + 1, p1 as int));
                assert(method@ =~= s@.skip(p1 as int + 1));
            }
            Result::Ok(InvocationTarget::Object { service, key, method })
        } else {
            Result::Err(InvokeError::InvalidTarget)
        }
    }
}

/// Separator positions are listed in strictly increasing order, each within
/// the string.
proof fn lemma_sep_positions_sorted(s: Seq<char>)
    ensures
        forall|k: int| 0 <= k < sep_positions(s).len()
            ==> 0 <= #[trigger] sep_positions(s)[k] < s.len(),
        forall|k1: int, k2: int|
            0 <= k1 < k2 < sep_positions(s).len()
            ==> #[trigger] sep_positions(s)[k1] < #[trigger] sep_positions(s)[k2],
    decreases s.len(),
{
    if s.len() > 0 {
        lemma_sep_positions_sorted(s.drop_last());
        let rest = sep_positions(s.drop_last());
        if s.last() == '/' {
            assert(sep_positions(s) == rest.push(s.len() - 1));
            assert(forall|k: int| 0 <= k < rest.len()
                ==> #[trigger] sep_positions(s)[k] == rest[k]);
            assert(sep_positions(s)[rest.len() as int] == s.len() - 1);
            assert(forall|k: int| 0 <= k < rest.len() ==> #[trigger] rest[k] < s.len() - 1);
        } else {
            assert(sep_positions(s) == rest);
        }
    }
}

/// The request path of a target: `/service/method/` for a service handler,
/// `/service/key/method/` for an object handler.
pub fn invocation_path(target: &InvocationTarget) -> (r: String)
    ensures
        match *target {
            InvocationTarget::Service { ref service, ref method } => r@ == seq!['/'] + service@
                + seq!['/'] + method@ + seq!['/'],
            InvocationTarget::Object { ref service, ref key, ref method } => r@ == seq!['/']
                + service@ + seq!['/'] + key@ + seq!['/'] + method@ + seq!['/'],
        },
{
    proof {
        reveal_strlit("/");
        assert("/"@ =~= seq!['/']);
    }
    match target {
        InvocationTarget::Service { service, method } => {
            let mut p = String::new();
            p.append("/");
            p.append(service.as_str());
            p.append("/");
            p.append(method.as_str());
            p.append("/");
            proof {
                assert(p@ =~= seq!['/'] + service@ + seq!['/'] + method@ + seq!['/']);
            }
            p
        },
        InvocationTarget::Object { service, key, method } => {
            let mut p = String::new();
            p.append("/");
            p.append(service.as_str());
            p.append("/");
            p.append(key.as_str());
            p.append("/");
            p.append(method.as_str());
            p.append("/");
            proof {
                assert(p@ =~= seq!['/'] + service@ + seq!['/'] + key@ + seq!['/'] + method@
                    + seq!['/']);
            }
            p
        },
    }
}

/// How an invocation is dispatched: called and awaited, fired off, or fired
/// off with a delay. A delay implies fire-and-forget.
#[derive(Clone, Copy, Debug, PartialEq, Eq, Structural)]
pub enum SendMode {
    Call,
    Send,
    SendDelayed(u64),
}

/// The dispatch mode chosen from the caller's flags.
pub fn send_mode(delay: Option<u64>, send: bool) -> (r: SendMode)
    ensures
        r == match delay {
            Option::Some(d) => SendMode::SendDelayed(d),
            Option::None => if send {
                SendMode::Send
            } else {
                SendMode::Call
            },
        },
{
    match delay {
        Option::Some(d) => SendMode::SendDelayed(d),
        Option::None => if send {
            SendMode::Send
        } else {
            SendMode::Call
        },
    }
}

} // verus!
