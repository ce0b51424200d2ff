//! Temporary names for the files that a cycle of renames parks on the side.

use crate::listing::find_path;
use crate::plan::lemma_distinct_below_bound;
use crate::text::push_char;
use crate::text::Path;
use vstd::prelude::*;
use vstd::string::StringExecFns;

verus! {

/// The character of a decimal digit.
pub open spec fn digit_char(d: nat) -> char {
    if d == 0 {
        '0'
    } else if d == 1 {
        '1'
    } else if d == 2 {
        '2'
    } else if d == 3 {
        '3'
    } else if d == 4 {
        '4'
    } else if d == 5 {
        '5'
    } else if d == 6 {
        '6'
    } else if d == 7 {
        '7'
    } else if d == 8 {
        '8'
    } else {
        '9'
    }
}

/// A number in decimal notation, without leading zeros.
pub open spec fn decimal(n: nat) -> Seq<char>
    decreases n,
{
    if n < 10 {
        seq![digit_char(n)]
    } else {
        decimal(n / 10).push(digit_char(n % 10))
    }
}

/// The temporary name number `counter` of the file `source`: the path of the
/// file, followed by `.n`, the number and `.tmp`.
pub open spec fn placeholder_name(source: Path, counter: nat) -> Path {
    source + seq!['.', 'n'] + decimal(counter) + seq!['.', 't', 'm', 'p']
}

/// The probe `is_taken` has answered, for a name with this path, that no
/// file has it.
pub open spec fn reported_unused<F: Fn(&String) -> bool>(is_taken: F, path: Path) -> bool {
    exists|name: String| name@ == path && #[trigger] call_ensures(is_taken, (&name,), false)
}

/// The probe `is_taken` has answered, for a name with this path, that a
/// file has it.
pub open spec fn reported_used<F: Fn(&String) -> bool>(is_taken: F, path: Path) -> bool {
    exists|name: String| name@ == path && #[trigger] call_ensures(is_taken, (&name,), true)
}

/// The probe `is_taken` never answers that a file has the name it is asked
/// about.
pub open spec fn never_taken<F: Fn(&String) -> bool>(is_taken: F) -> bool {
    forall|name: &String| !#[trigger] call_ensures(is_taken, (name,), true)
}

/// Different numbers are written differently.
pub proof fn lemma_decimal_injective(a: nat, b: nat)
    requires
        decimal(a) == decimal(b),
    ensures
        a == b,
    decreases a,
{
    lemma_decimal_length(a);
    lemma_decimal_length(b);
    if a >= 10 && b >= 10 {
        let front = decimal(a / 10);
        let back = decimal(b / 10);
        assert(decimal(a).last() == digit_char(a % 10));
        assert(decimal(b).last() == digit_char(b % 10));
        assert(front =~= decimal(a).drop_last());
        assert(back =~= decimal(b).drop_last());
        lemma_decimal_injective(a / 10, b / 10);
    } else if a < 10 && b < 10 {
        assert(decimal(a)[0] == digit_char(a));
        assert(decimal(b)[0] == digit_char(b));
    }
}

/// A number below ten is written with one digit, any other with more.
proof fn lemma_decimal_length(n: nat)
    ensures
        decimal(n).len() >= 1,
        n < 10 <==> decimal(n).len() == 1,
    decreases n,
{
    if n >= 10 {
        lemma_decimal_length(n / 10);
    }
}

/// The temporary names of a file differ from number to number.
pub proof fn lemma_placeholder_names_differ(source: Path, a: nat, b: nat)
    requires
        a != b,
    ensures
        placeholder_name(source, a) != placeholder_name(source, b),
{
    let head = source + seq!['.', 'n'];
    let first = placeholder_name(source, a);
    let second = placeholder_name(source, b);
    if first == second {
        assert(first.len() == head.len() + decimal(a).len() + 4);
        assert(second.len() == head.len() + decimal(b).len() + 4);
        assert forall|i: int| 0 <= i < decimal(a).len() implies decimal(a)[i] == decimal(b)[i] by {
            assert(first[head.len() + i] == decimal(a)[i]);
            assert(second[head.len() + i] == decimal(b)[i]);
        }
        assert(decimal(a) =~= decimal(b));
        lemma_decimal_injective(a, b);
    }
}

fn digit(d: u64) -> (c: char)
    requires
        d < 10,
    ensures
        c == digit_char(d as nat),
{
    if d == 0 {
        '0'
    } else if d == 1 {
        '1'
    } else if d == 2 {
        '2'
    } else if d == 3 {
        '3'
    } else if d == 4 {
        '4'
    } else if d == 5 {
        '5'
    } else if d == 6 {
        '6'
    } else if d == 7 {
        '7'
    } else if d == 8 {
        '8'
    } else {
        '9'
    }
}

/// Appends `n` in decimal notation.
fn append_decimal(text: &mut String, n: u64)
    ensures
        final(text)@ == old(text)@ + decimal(n as nat),
{
    let mut digits: Vec<char> = Vec::new();
    digits.push(digit(n % 10));
    let mut rest: u64 = n / 10;
    proof {
        assert(digits@.reverse() =~= seq![digit_char((n % 10) as nat)]);
        if rest > 0 {
            assert(decimal(n as nat) =~= decimal(rest as nat) + digits@.reverse());
        }
    }
    while rest > 0
        invariant
            digits.len() >= 1,
            rest > 0 ==> decimal(n as nat) == decimal(rest as nat) + digits@.reverse(),
            rest == 0 ==> decimal(n as nat) == digits@.reverse(),
        decreases rest,
    {
        let ghost before = digits@;
        digits.push(digit(rest % 10));
        proof {
            let d = digit_char((rest % 10) as nat);
            assert(digits@.reverse() =~= seq![d] + before.reverse());
            if rest >= 10 {
                assert(decimal(rest as nat) + before.reverse() =~= decimal((rest / 10) as nat) + (
                seq![d] + before.reverse()));
            } else {
                assert(decimal(rest as nat) =~= seq![d]);
            }
        }
        rest = rest / 10;
    }
    let mut k: usize = digits.len();
    while k > 0
        invariant
            0 <= k <= digits.len(),
            text@ == old(text)@ + digits@.reverse().take(digits.len() - k),
        decreases k,
    {
        k -= 1;
        push_char(text, digits[k]);
        proof {
            let reversed = digits@.reverse();
            assert(reversed.take(digits.len() - k) =~= reversed.take(digits.len() - k - 1).push(
                digits[k as int],
            ));
            assert(text@ =~= old(text)@ + reversed.take(digits.len() - k));
        }
    }
    proof {
        assert(digits@.reverse().take(digits.len() as int) =~= digits@.reverse());
    }
}

/// The temporary name number `counter` of the file `source`.
pub fn placeholder_path(source: &String, counter: u64) -> (path: String)
    ensures
        path@ == placeholder_name(source@, counter as nat),
{
    proof {
        reveal_strlit(".n");
        reveal_strlit(".tmp");
        assert(".n"@ =~= seq!['.', 'n']);
        assert(".tmp"@ =~= seq!['.', 't', 'm', 'p']);
    }
    let mut path = source.clone();
    path.append(".n");
    append_decimal(&mut path, counter);
    path.append(".tmp");
    path
}

/// Searches a temporary name for `source` that is no node of the graph and
/// that `is_taken` reports as unused, trying the numbers from `*counter` on.
/// The counter ends behind the last number tried; each number that was
/// passed over gives a name that is a node or that `is_taken` reports as
/// used. Where `is_taken` never reports a name as used, at most one number
/// more is tried than there are nodes, and a name is found unless the numbers
/// end before.
pub fn free_placeholder<F: Fn(&String) -> bool>(
    is_taken: &F,
    nodes: &Vec<String>,
    source: &String,
    counter: &mut u64,
) -> (found: Option<String>)
    requires
        forall|path: &String| call_requires(is_taken, (path,)),
    ensures
        *old(counter) <= *final(counter),
        found matches Some(path) ==> {
            &&& *old(counter) < *final(counter)
            &&& path@ == placeholder_name(source@, (*final(counter) - 1) as nat)
            &&& !nodes.deep_view().contains(path@)
            &&& reported_unused(*is_taken, path@)
        },
        found is None ==> *final(counter) == u64::MAX,
        forall|c: nat|
            *old(counter) <= c < *final(counter) && !(found is Some && c == *final(counter) - 1)
                ==> nodes.deep_view().contains(#[trigger] placeholder_name(source@, c))
                || reported_used(*is_taken, placeholder_name(source@, c)),
        never_taken(*is_taken) ==> *final(counter) <= *old(counter) + nodes.len() + 1,
        never_taken(*is_taken) && *old(counter) + nodes.len() < u64::MAX ==> found is Some,
{
    let ghost first = *counter;
    let ghost mut hits: Seq<int> = Seq::empty();
    while *counter < u64::MAX
        invariant
            forall|path: &String| call_requires(is_taken, (path,)),
            first == *old(counter),
            first <= *counter,
            forall|c: nat|
                first <= c < *counter ==> nodes.deep_view().contains(
                    #[trigger] placeholder_name(source@, c),
                ) || reported_used(*is_taken, placeholder_name(source@, c)),
            never_taken(*is_taken) ==> {
                &&& hits.len() == *counter - first
                &&& hits.len() <= nodes.len()
                &&& forall|k: int|
                    0 <= k < hits.len() ==> 0 <= #[trigger] hits[k] < nodes.len()
                        && nodes.deep_view()[hits[k]] == placeholder_name(
                        source@,
                        (first + k) as nat,
                    )
            },
        decreases u64::MAX - *counter,
    {
        let candidate = placeholder_path(source, *counter);
        let ghost number = *counter;
        *counter = *counter + 1;
        match find_path(nodes, &candidate) {
            None => {
                let taken = is_taken(&candidate);
                if !taken {
                    return Some(candidate);
                }
            },
            Some(at) => {
                proof {
                    assert(nodes.deep_view()[at as int] == candidate@);
                    if never_taken(*is_taken) {
                        let more = hits.push(at as int);
                        assert(nodes.deep_view()[at as int] == candidate@);
                        assert forall|k: int, l: int|
                            0 <= k < more.len() && 0 <= l < more.len() && k != l implies more[k]
                            != more[l] by {
                            lemma_placeholder_names_differ(
                                source@,
                                (first + k) as nat,
                                (first + l) as nat,
                            );
                        }
                        lemma_distinct_below_bound(more, nodes.len() as int);
                        hits = more;
                    }
                }
            },
        }
    }
    None
}

} // verus!
