//! The names of segment files.

use crate::digits::lemma_zero_place;
use crate::text::{
    decimal_padded, law_padded_writes_down, law_parsed_is_written_down, parse_u64, parse_u64_spec,
    push_decimal_padded, writes_down,
};
use vstd::arithmetic::power::pow;
use vstd::prelude::*;
use vstd::string::*;

verus! {

/// The name of segment number `seq`: `body.` and the number, with at least six
/// digits.
pub open spec fn file_name_spec(seq: u64) -> Seq<char> {
    "body."@ + decimal_padded(seq as nat, 6)
}

/// The segment number that a file name tells, if it tells one.
pub open spec fn seq_of_name_spec(name: Seq<char>) -> Option<u64> {
    if name.len() >= 5 && name.take(5) == "body."@ {
        parse_u64_spec(name.skip(5))
    } else {
        None
    }
}

/// Whether one of the file names tells the segment number `seq`.
pub open spec fn listed(names: Seq<String>, seq: u64) -> bool {
    exists|i: int| 0 <= i < names.len() && seq_of_name_spec(#[trigger] names[i]@) == Some(seq)
}

/// Whether each number is greater than the one before it.
pub open spec fn ascending(s: Seq<u64>) -> bool {
    forall|i: int, j: int| 0 <= i < j < s.len() ==> s[i] < s[j]
}

/// The number of a segment is found again in the name of its file.
pub proof fn law_file_name_tells_the_number(seq: u64)
    ensures
        seq_of_name_spec(file_name_spec(seq)) == Some(seq),
{
    let name = file_name_spec(seq);
    reveal_strlit("body.");
    crate::text::law_decimal_round_trip(seq, 6);
    assert(name.take(5) =~= "body."@);
    assert(name.skip(5) =~= decimal_padded(seq as nat, 6));
}

/// Whether the name is `body.` and then decimal digits that write down `n`, with or
/// without a plus sign in front of them.
pub open spec fn tells(name: Seq<char>, n: int) -> bool {
    &&& name.len() >= 5
    &&& name[0] == 'b'
    &&& name[1] == 'o'
    &&& name[2] == 'd'
    &&& name[3] == 'y'
    &&& name[4] == '.'
    &&& writes_down(name.skip(5), n) || name.len() > 5 && name[5] == '+' && writes_down(
        name.skip(6),
        n,
    )
}

/// The name of a segment is `body.` and the digits of its number, filled up with
/// zeros to six digits: eleven characters, unless the number itself has more
/// than six digits.
pub proof fn law_file_name_is_padded(seq: u64)
    ensures
        ({
            let name = file_name_spec(seq);
            &&& name.len() >= 11
            &&& seq < 1_000_000 ==> name.len() == 11
            &&& seq >= 1_000_000 ==> name.len() > 11 && name[5] != '0'
            &&& name.take(5) == seq!['b', 'o', 'd', 'y', '.']
            &&& forall|i: int|
                5 <= i < name.len() ==> (#[trigger] name[i]) as int - '0' as int == seq as int
                    / pow(10, (name.len() - 1 - i) as nat) % 10
            &&& seq < pow(10, (name.len() - 5) as nat)
        }),
{
    let name = file_name_spec(seq);
    let digits = decimal_padded(seq as nat, 6);
    reveal_strlit("body.");
    law_padded_writes_down(seq as nat, 6);
    assert(name.take(5) =~= seq!['b', 'o', 'd', 'y', '.']);
    assert forall|i: int| 5 <= i < name.len() implies (#[trigger] name[i]) as int - '0' as int
        == seq as int / pow(10, (name.len() - 1 - i) as nat) % 10 by {
        assert(name[i] == digits[i - 5]);
    }
    assert(pow(10, 6) == 1_000_000) by {
        reveal_with_fuel(pow, 7);
    }
    assert(name[5] == digits[0]);
    if digits.len() > 6 {
        if seq < 1_000_000 {
            lemma_zero_place(seq as int, 10, 6, (digits.len() - 1) as nat);
            assert(digits[0] as int - '0' as int == seq as int / pow(
                10,
                (digits.len() - 1 - 0) as nat,
            ) % 10);
        }
    }
}

/// The names that are taken for a segment's are those that tell its number.
pub proof fn law_names_that_tell_a_number(name: Seq<char>, n: u64)
    ensures
        seq_of_name_spec(name) == Some(n) <==> tells(name, n as int),
{
    reveal_strlit("body.");
    if name.len() >= 5 {
        let prefix = name.take(5);
        let rest = name.skip(5);
        law_parsed_is_written_down(rest, n);
        if name[0] == 'b' && name[1] == 'o' && name[2] == 'd' && name[3] == 'y' && name[4] == '.' {
            assert(prefix =~= "body."@);
        }
        if prefix == "body."@ {
            assert(prefix[0] == name[0] && prefix[1] == name[1] && prefix[2] == name[2]
                && prefix[3] == name[3] && prefix[4] == name[4]);
        }
        if rest.len() > 0 {
            assert(rest[0] == name[5]);
            assert(rest.skip(1) =~= name.skip(6));
        }
    }
}

/// A segment is listed by a directory that has a file whose name tells its number.
pub proof fn law_listed_segments_have_a_file(names: Seq<String>, seq: u64)
    ensures
        listed(names, seq) <==> exists|i: int|
            0 <= i < names.len() && tells((#[trigger] names[i])@, seq as int),
{
    assert forall|i: int| 0 <= i < names.len() implies (seq_of_name_spec(
        (#[trigger] names[i])@,
    ) == Some(seq) <==> tells(names[i]@, seq as int)) by {
        law_names_that_tell_a_number(names[i]@, seq);
    }
}

/// The name of the file that holds segment number `seq`.
pub fn segment_file_name(seq: u64) -> (name: String)
    ensures
        name@ == file_name_spec(seq),
{
    let mut name = String::new();
    name.append("body.");
    push_decimal_padded(&mut name, seq, 6);
    proof {
        assert(name@ =~= file_name_spec(seq));
    }
    name
}

/// The segment number that a file name tells, if it tells one.
pub fn segment_seq(name: &str) -> (seq: Option<u64>)
    ensures
        seq == seq_of_name_spec(name@),
{
    let len = name.unicode_len();
    let mut chars: Vec<char> = Vec::new();
    let mut i: usize = 0;
    while i < len
        invariant
            len == name@.len(),
            i <= len,
            chars@ == name@.take(i as int),
        decreases len - i,
    {
        chars.push(name.get_char(i));
        i = i + 1;
        proof {
            assert(chars@ =~= name@.take(i as int));
        }
    }
    proof {
        assert(chars@ =~= name@);
        reveal_strlit("body.");
    }
    let ghost prefix = name@.take(5);
    if len < 5 || chars[0] != 'b' || chars[1] != 'o' || chars[2] != 'd' || chars[3] != 'y'
        || chars[4] != '.' {
        proof {
            if len >= 5 {
                assert(prefix[0] == chars@[0] && prefix[1] == chars@[1] && prefix[2] == chars@[2]
                    && prefix[3] == chars@[3] && prefix[4] == chars@[4]);
            }
        }
        return None;
    }
    proof {
        assert(prefix =~= "body."@);
    }
    parse_u64(&chars, 5)
}

fn insert_ascending(seqs: &mut Vec<u64>, seq: u64)
    requires
        ascending(old(seqs)@),
    ensures
        ascending(final(seqs)@),
        forall|x: u64| final(seqs)@.contains(x) <==> old(seqs)@.contains(x) || x == seq,
{
    let mut at: usize = seqs.len();
    while at > 0 && seqs[at - 1] > seq
        invariant
            at <= seqs@.len(),
            ascending(seqs@),
            seqs@ == old(seqs)@,
            forall|i: int| at <= i < seqs@.len() ==> seqs@[i] > seq,
        decreases at,
    {
        at = at - 1;
    }
    if at > 0 && seqs[at - 1] == seq {
        return;
    }
    seqs.insert(at, seq);
    proof {
        let before = old(seqs)@;
        let after = seqs@;
        assert forall|x: u64| after.contains(x) <==> before.contains(x) || x == seq by {
            if before.contains(x) {
                let i = choose|i: int| 0 <= i < before.len() && before[i] == x;
                assert(after[if i < at {
                    i
                } else {
                    i + 1
                }] == x);
            }
            if x == seq {
                assert(after[at as int] == x);
            }
            if after.contains(x) && x != seq {
                let i = choose|i: int| 0 <= i < after.len() && after[i] == x;
                assert(before[if i < at {
                    i
                } else {
                    i - 1
                }] == x);
            }
        }
    }
}

/// The segment numbers that the file names of a directory tell, each once, in
/// ascending order.
pub fn segment_seqs(names: &Vec<String>) -> (seqs: Vec<u64>)
    ensures
        ascending(seqs@),
        forall|i: int, j: int| 0 <= i < j < seqs@.len() ==> seqs@[i] < seqs@[j],
        forall|seq: u64| seqs@.contains(seq) <==> listed(names@, seq),
{
    let mut seqs: Vec<u64> = Vec::new();
    let mut i: usize = 0;
    while i < names.len()
        invariant
            i <= names@.len(),
            ascending(seqs@),
            forall|seq: u64| seqs@.contains(seq) <==> listed(names@.take(i as int), seq),
        decreases names@.len() - i,
    {
        let found = segment_seq(names[i].as_str());
        let ghost before = names@.take(i as int);
        let ghost after = names@.take(i + 1);
        if let Some(seq) = found {
            insert_ascending(&mut seqs, seq);
        }
        proof {
            assert forall|x: u64| listed(after, x) <==> listed(before, x) || found == Some(x) by {
                if listed(before, x) {
                    let k = choose|k: int|
                        0 <= k < before.len() && seq_of_name_spec(#[trigger] before[k]@) == Some(x);
                    assert(after[k] == before[k]);
                }
                if found == Some(x) {
                    assert(after[i as int] == names@[i as int]);
                }
                if listed(after, x) && found != Some(x) {
                    let k = choose|k: int|
                        0 <= k < after.len() && seq_of_name_spec(#[trigger] after[k]@) == Some(x);
                    assert(after[i as int] == names@[i as int]);
                    assert(before[k] == after[k]);
                }
            }
        }
        i = i + 1;
    }
    proof {
        assert(names@.take(i as int) =~= names@);
    }
    seqs
}

} // verus!
