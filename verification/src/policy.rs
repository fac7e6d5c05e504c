//! The rules by which a search spends its simulations.

use crate::text::{
    chars_of, decimal, law_decimal_reads_back, number_in, parse_number, pieces, push_decimal,
    spells, split_commas, tail_of, text_of, trim, trimmed,
};
use vstd::prelude::*;

verus! {

/// How the next action to sample is chosen.
#[derive(Clone, Copy, Debug, PartialEq, Eq, Structural)]
pub enum Policy {
    /// Scale-free upper confidence bounds.
    Uct,
    /// The largest of one draw per action from the posterior of its mean.
    Thompson,
    /// The largest value of one more sample.
    ExactVoc,
    /// As `ExactVoc`, estimated from so many draws.
    McVoc(usize),
}

/// The text begins with the name of the drawn estimate.
pub open spec fn names_draws(s: Seq<char>) -> bool {
    "mc-voc-"@.is_prefix_of(s)
}

/// The policy that a name stands for, or the message that says what is wrong with it.
pub open spec fn policy_named(s: Seq<char>) -> Result<Policy, Seq<char>> {
    if s == "uct"@ {
        Ok(Policy::Uct)
    } else if s == "thompson"@ {
        Ok(Policy::Thompson)
    } else if s == "exact-voc"@ {
        Ok(Policy::ExactVoc)
    } else if names_draws(s) {
        match number_in(s.skip("mc-voc-"@.len() as int)) {
            Some(n) => if n == 0 {
                Err("MC sample count must be positive in "@ + s)
            } else {
                Ok(Policy::McVoc(n))
            },
            None => Err("bad MC sample count in "@ + s),
        }
    } else {
        Err("unknown policy "@ + s + "; use uct, thompson, exact-voc, mc-voc-N"@)
    }
}

/// `r` is what the name means: the policy, or the message.
pub open spec fn reads_as(r: Result<Policy, String>, s: Seq<char>) -> bool {
    match (r, policy_named(s)) {
        (Ok(p), Ok(q)) => p == q,
        (Err(msg), Err(text)) => msg@ == text,
        _ => false,
    }
}

fn message(before: &str, cs: &Vec<char>, after: &str) -> (r: String)
    ensures
        r@ == before@ + cs@ + after@,
{
    let mut out = String::from_str(before);
    let shown = text_of(cs);
    out.append(shown.as_str());
    out.append(after);
    out
}

fn has_prefix(cs: &Vec<char>, prefix: &str) -> (r: bool)
    ensures
        r == prefix@.is_prefix_of(cs@),
{
    let p = chars_of(prefix);
    if p.len() > cs.len() {
        return false;
    }
    for i in 0..p.len()
        invariant
            p@ == prefix@,
            p@.len() <= cs@.len(),
            forall|j: int| 0 <= j < i ==> p@[j] == cs@[j],
    {
        if p[i] != cs[i] {
            assert(prefix@[i as int] != cs@[i as int]);
            return false;
        }
    }
    assert(prefix@ =~= cs@.subrange(0, prefix@.len() as int));
    true
}

impl Policy {
    /// The policy that a name stands for.
    pub fn parse(s: &str) -> (r: Result<Policy, String>)
        ensures
            reads_as(r, s@),
    {
        let cs = chars_of(s);
        Policy::parse_chars(&cs)
    }

    fn parse_chars(cs: &Vec<char>) -> (r: Result<Policy, String>)
        ensures
            reads_as(r, cs@),
    {
        if spells(cs, "uct") {
            return Ok(Policy::Uct);
        }
        if spells(cs, "thompson") {
            return Ok(Policy::Thompson);
        }
        if spells(cs, "exact-voc") {
            return Ok(Policy::ExactVoc);
        }
        if has_prefix(cs, "mc-voc-") {
            let rest = tail_of(cs, "mc-voc-".unicode_len());
            match parse_number(&rest) {
                Some(n) => {
                    if n == 0 {
                        let msg = message("MC sample count must be positive in ", cs, "");
                        proof {
                            reveal_strlit("");
                            assert(msg@ =~= "MC sample count must be positive in "@ + cs@);
                        }
                        return Err(msg);
                    }
                    return Ok(Policy::McVoc(n));
                },
                None => {
                    let msg = message("bad MC sample count in ", cs, "");
                    proof {
                        reveal_strlit("");
                        assert(msg@ =~= "bad MC sample count in "@ + cs@);
                    }
                    return Err(msg);
                },
            }
        }
        Err(message("unknown policy ", cs, "; use uct, thompson, exact-voc, mc-voc-N"))
    }

    /// The name of the policy.
    pub open spec fn title(self) -> Seq<char> {
        match self {
            Policy::Uct => "uct"@,
            Policy::Thompson => "thompson"@,
            Policy::ExactVoc => "exact-voc"@,
            Policy::McVoc(n) => "mc-voc-"@ + decimal(n as nat),
        }
    }

    /// The name of the policy.
    pub fn name(self) -> (r: String)
        ensures
            r@ == self.title(),
    {
        match self {
            Policy::Uct => String::from_str("uct"),
            Policy::Thompson => String::from_str("thompson"),
            Policy::ExactVoc => String::from_str("exact-voc"),
            Policy::McVoc(n) => {
                let mut out = String::from_str("mc-voc-");
                push_decimal(&mut out, n as u64);
                out
            },
        }
    }

    /// The number of draws of the drawn estimate, 0 for the other policies.
    pub fn mc_samples(self) -> (r: usize)
        ensures
            r == (match self {
                Policy::McVoc(n) => n,
                _ => 0,
            }),
    {
        match self {
            Policy::McVoc(n) => n,
            _ => 0,
        }
    }
}

/// `i` is the first piece of a list that names no policy.
pub open spec fn first_unknown_piece(s: Seq<char>, i: int) -> bool {
    &&& 0 <= i < pieces(s).len()
    &&& policy_named(trimmed(pieces(s)[i])) is Err
    &&& forall|j: int| 0 <= j < i ==> policy_named(trimmed(#[trigger] pieces(s)[j])) is Ok
}

/// The pieces of a list all name policies.
pub open spec fn lists_policies(s: Seq<char>) -> bool {
    forall|i: int| 0 <= i < pieces(s).len() ==> policy_named(trimmed(#[trigger] pieces(s)[i])) is Ok
}

/// The policies that the pieces of a list name.
pub open spec fn policies_listed(s: Seq<char>, v: Seq<Policy>) -> bool {
    &&& v.len() == pieces(s).len()
    &&& forall|i: int|
        0 <= i < v.len() ==> policy_named(trimmed(#[trigger] pieces(s)[i])) == Ok::<
            Policy,
            Seq<char>,
        >(v[i])
}

/// The message is that of the first piece that names no policy.
pub open spec fn names_bad_policy(s: Seq<char>, message: Seq<char>) -> bool {
    exists|i: int| #[trigger]
        first_unknown_piece(s, i) && policy_named(trimmed(pieces(s)[i])) == Err::<
            Policy,
            Seq<char>,
        >(message)
}

/// The policies of a list separated by commas, blanks around the names aside. The error
/// is that of the first piece that names no policy.
pub fn parse_policies(s: &str) -> (r: Result<Vec<Policy>, String>)
    ensures
        match r {
            Ok(v) => lists_policies(s@) && policies_listed(s@, v@),
            Err(msg) => !lists_policies(s@) && names_bad_policy(s@, msg@),
        },
{
    let parts = split_commas(s);
    let mut out: Vec<Policy> = Vec::new();
    for i in 0..parts.len()
        invariant
            parts@.len() == pieces(s@).len(),
            forall|j: int| 0 <= j < parts@.len() ==> (#[trigger] parts@[j])@ == pieces(s@)[j],
            out@.len() == i,
            forall|j: int|
                0 <= j < i ==> policy_named(trimmed(#[trigger] pieces(s@)[j])) == Ok::<
                    Policy,
                    Seq<char>,
                >(out@[j]),
    {
        assert(parts@[i as int]@ == pieces(s@)[i as int]);
        let piece = trim(&parts[i]);
        match Policy::parse_chars(&piece) {
            Ok(p) => {
                out.push(p);
            },
            Err(msg) => {
                assert(first_unknown_piece(s@, i as int));
                return Err(msg);
            },
        }
    }
    Ok(out)
}

/// The name of a policy reads back as the policy, unless it is the estimate from no
/// draws at all.
pub proof fn law_name_reads_back(p: Policy)
    requires
        p != Policy::McVoc(0),
    ensures
        policy_named(p.title()) == Ok::<Policy, Seq<char>>(p),
{
    reveal_strlit("uct");
    reveal_strlit("thompson");
    reveal_strlit("exact-voc");
    reveal_strlit("mc-voc-");
    match p {
        Policy::McVoc(n) => {
            law_decimal_reads_back(n);
            let s = p.title();
            assert(s.skip(7) =~= decimal(n as nat));
            assert(s[0] == 'm');
            assert("uct"@[0] == 'u' && "thompson"@[0] == 't' && "exact-voc"@[0] == 'e');
            assert("mc-voc-"@ =~= s.subrange(0, 7));
        },
        Policy::Thompson => {
            assert("uct"@.len() == 3 && "thompson"@.len() == 8);
        },
        Policy::ExactVoc => {
            assert("uct"@.len() == 3 && "thompson"@.len() == 8 && "exact-voc"@.len() == 9);
        },
        Policy::Uct => {},
    }
}

} // verus!
