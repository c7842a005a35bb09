//! What descriptors, flags and intervals come to.

use vstd::prelude::*;
use super::{
    clamped, counter_value, descriptor_fields, descriptor_text, descriptor_value, fields_view,
    flag_value, gc_bounds, is_blank, lemma_concat_contains, lemma_push_contains, lowered, pid_value,
    reads_as, replica_count, without_end_slashes, DescriptorFields,
};
use crate::dots::Counter;
use crate::prelude::{Pid, SocketAddress};
use crate::text::operations::law_trimming_cuts_off_white_space;
use crate::text::{
    decimal, is_white_space, last_piece, lemma_split_append, lemma_split_plain, signed_decimal,
    signed_value, split, unsigned_value,
};

verus! {

/// The text of a descriptor is its identity, its address and its epoch in
/// decimal, with commas between them, and the final counter behind another
/// comma where there is one.
pub proof fn law_descriptor_text(pid: Pid, address: Seq<char>, epoch: Counter, last: Counter)
    ensures
        descriptor_text(pid, address, epoch, None) == decimal(pid as nat) + seq![','] + address
            + seq![','] + signed_decimal(epoch as int),
        descriptor_text(pid, address, epoch, Some(last)) == decimal(pid as nat) + seq![',']
            + address + seq![','] + signed_decimal(epoch as int) + seq![','] + signed_decimal(
            last as int,
        ),
{
    assert(descriptor_text(pid, address, epoch, None) =~= decimal(pid as nat) + seq![','] + address
        + seq![','] + signed_decimal(epoch as int));
    assert(descriptor_text(pid, address, epoch, Some(last)) =~= decimal(pid as nat) + seq![',']
        + address + seq![','] + signed_decimal(epoch as int) + seq![','] + signed_decimal(
        last as int,
    ));
}

/// An identity is an unsigned number of at most 128 bits, and a counter is a
/// signed one of at most 64.
pub proof fn law_identities_and_counters(text: Seq<char>)
    ensures
        pid_value(text) is Some <==> unsigned_value(text) is Some && unsigned_value(text)->0
            <= u128::MAX,
        pid_value(text) is Some ==> pid_value(text)->0 == unsigned_value(text)->0,
        counter_value(text) is Some <==> signed_value(text) is Some && i64::MIN <= signed_value(
            text,
        )->0 <= i64::MAX,
        counter_value(text) is Some ==> counter_value(text)->0 == signed_value(text)->0,
{
}

/// What comes before the last slash of a path does not matter, and what comes
/// after it is read field by field: an identity, an address and an epoch, and
/// possibly a final counter.
pub proof fn law_fields_are_read_in_order(
    directory: Seq<char>,
    a: Seq<char>,
    b: Seq<char>,
    c: Seq<char>,
    d: Seq<char>,
)
    requires
        forall|x: char|
            x == ',' || x == '/' ==> !(#[trigger] a.contains(x)) && !b.contains(x) && !c.contains(x)
                && !d.contains(x),
    ensures
        ({
            let three = a + seq![','] + b + seq![','] + c;
            let four = three + seq![','] + d;
            let short = descriptor_fields(three);
            let long = descriptor_fields(four);
            &&& descriptor_fields(directory + seq!['/'] + three) == short
            &&& descriptor_fields(directory + seq!['/'] + four) == long
            &&& short is Some <==> pid_value(a) is Some && counter_value(c) is Some
            &&& short is Some ==> short->0 == (
                pid_value(a)->0,
                b,
                counter_value(c)->0,
                None::<Counter>,
            )
            &&& long is Some <==> pid_value(a) is Some && counter_value(c) is Some
                && counter_value(d) is Some
            &&& long is Some ==> long->0 == (
                pid_value(a)->0,
                b,
                counter_value(c)->0,
                Some(counter_value(d)->0),
            )
        }),
{
    let three = a + seq![','] + b + seq![','] + c;
    let four = three + seq![','] + d;
    assert(!a.contains(',') && !a.contains('/'));
    let two = a.push(',') + b;
    assert(three =~= two.push(',') + c);
    assert(four =~= three.push(',') + d);
    lemma_split_plain(a, ',');
    lemma_split_append(a, ',', b);
    lemma_split_append(two, ',', c);
    lemma_split_append(three, ',', d);
    lemma_push_contains(a, ',', '/');
    lemma_concat_contains(a.push(','), b, '/');
    lemma_push_contains(two, ',', '/');
    lemma_concat_contains(two.push(','), c, '/');
    lemma_push_contains(three, ',', '/');
    lemma_concat_contains(three.push(','), d, '/');
    lemma_split_plain(three, '/');
    lemma_split_plain(four, '/');
    lemma_split_append(directory, '/', three);
    lemma_split_append(directory, '/', four);
    assert(directory + seq!['/'] + three =~= directory.push('/') + three);
    assert(directory + seq!['/'] + four =~= directory.push('/') + four);
    assert(last_piece(three, '/') == three);
    assert(last_piece(four, '/') == four);
    assert(last_piece(directory.push('/') + three, '/') == three);
    assert(last_piece(directory.push('/') + four, '/') == four);
    assert(split(three, ',') == seq![a].push(b).push(c));
    assert(split(four, ',') == seq![a].push(b).push(c).push(d));
}

/// A name is a descriptor only if it has three or four fields.
pub proof fn law_descriptors_have_three_or_four_fields(path: Seq<char>)
    requires
        !(3 <= split(last_piece(path, '/'), ',').len() <= 4),
    ensures
        descriptor_fields(path) is None,
{
}

/// A descriptor is read exactly if its fields are and its address denotes one.
pub proof fn law_descriptor_needs_fields_and_address(
    path: Seq<char>,
    denotes: spec_fn(Seq<char>) -> Option<SocketAddress>,
)
    ensures
        ({
            let fields = descriptor_fields(path);
            let value = descriptor_value(path, denotes);
            let (pid, text, gc_counter, final_counter) = fields->0;
            &&& value is Some <==> fields is Some && denotes(text) is Some
            &&& value is Some ==> {
                &&& value->0.pid == pid
                &&& value->0.address == denotes(text)->0
                &&& value->0.gc_counter == gc_counter
                &&& value->0.final_counter == final_counter
            }
        }),
{
}

/// The fields are seen as they are, and a reader of addresses is described by
/// what it returns.
pub proof fn law_fields_are_seen_as_they_are<F: Fn(&str) -> Option<SocketAddress>>(
    fields: DescriptorFields,
    f: F,
    denotes: spec_fn(Seq<char>) -> Option<SocketAddress>,
    text: &str,
    address: Option<SocketAddress>,
)
    ensures
        fields_view(fields).0 == fields.pid,
        fields_view(fields).1 == fields.address@,
        fields_view(fields).2 == fields.gc_counter,
        fields_view(fields).3 == fields.final_counter,
        reads_as(f, denotes) && call_ensures(f, (text,), address) ==> address == denotes(text@),
        (forall|t: &str, a: Option<SocketAddress>| #[trigger]
            call_ensures(f, (t,), a) ==> a == denotes(t@)) ==> reads_as(f, denotes),
{
}

/// Of a path the slashes at its end are cut off, and nothing else.
pub proof fn law_end_slashes_are_cut_off(path: Seq<char>)
    ensures
        without_end_slashes(path.push('/')) == without_end_slashes(path),
        path.len() > 0 && path.last() != '/' ==> without_end_slashes(path) == path,
        without_end_slashes(Seq::empty()) == Seq::<char>::empty(),
{
    assert(path.push('/').drop_last() =~= path);
}

/// The letters from A to Z are lowered, and other characters stay.
pub proof fn law_letters_are_lowered(c: char)
    ensures
        65 <= c as int <= 90 ==> lowered(c) as int == c as int + 32,
        !(65 <= c as int <= 90) ==> lowered(c) == c,
{
}

/// A flag is on if its text is one of four in any case of letters, off if it is
/// one of four others, and nothing otherwise.
pub proof fn law_flags_have_eight_texts(text: Seq<char>, lower: Seq<char>)
    requires
        lower.len() == text.len(),
        forall|i: int| 0 <= i < text.len() ==> #[trigger] lower[i] == lowered(text[i]),
    ensures
        lower == seq!['1'] || lower == seq!['t', 'r', 'u', 'e'] || lower == seq!['y', 'e', 's']
            || lower == seq!['o', 'n'] ==> flag_value(text) == Some(true),
        lower == seq!['0'] || lower == seq!['f', 'a', 'l', 's', 'e'] || lower == seq!['n', 'o']
            || lower == seq!['o', 'f', 'f'] ==> flag_value(text) == Some(false),
        flag_value(text) == Some(true) ==> lower == seq!['1'] || lower == seq!['t', 'r', 'u', 'e']
            || lower == seq!['y', 'e', 's'] || lower == seq!['o', 'n'],
        flag_value(text) == Some(false) ==> lower == seq!['0'] || lower == seq![
            'f',
            'a',
            'l',
            's',
            'e',
        ] || lower == seq!['n', 'o'] || lower == seq!['o', 'f', 'f'],
{
    reveal_strlit("1");
    reveal_strlit("true");
    reveal_strlit("yes");
    reveal_strlit("on");
    reveal_strlit("0");
    reveal_strlit("false");
    reveal_strlit("no");
    reveal_strlit("off");
    assert("1"@ =~= seq!['1']);
    assert("true"@ =~= seq!['t', 'r', 'u', 'e']);
    assert("yes"@ =~= seq!['y', 'e', 's']);
    assert("on"@ =~= seq!['o', 'n']);
    assert("0"@ =~= seq!['0']);
    assert("false"@ =~= seq!['f', 'a', 'l', 's', 'e']);
    assert("no"@ =~= seq!['n', 'o']);
    assert("off"@ =~= seq!['o', 'f', 'f']);
    assert(text.map_values(|c: char| lowered(c)) =~= lower);
    assert("1"@[0] != "0"@[0]);
    assert("on"@[0] != "no"@[0]);
    assert("yes"@[0] != "off"@[0]);
}

/// A text is blank exactly if all of its characters are white space.
pub proof fn law_blank_texts(text: Seq<char>, i: int)
    ensures
        is_blank(text) && 0 <= i < text.len() ==> is_white_space(text[i]),
        (forall|j: int| 0 <= j < text.len() ==> is_white_space(#[trigger] text[j])) ==> is_blank(
            text,
        ),
{
    let at = law_trimming_cuts_off_white_space(text);
    let rest = crate::text::trimmed(text);
    if rest.len() > 0 {
        assert(rest[0] == text[at]);
    }
}

/// A round is set off from the configured interval by up to its share among the
/// replicas, but at least one nanosecond ahead and with one to spare. An
/// interval of zero has no bounds.
pub proof fn law_round_interval_bounds(base: nat, replicas: nat)
    requires
        replicas > 0,
        base <= u128::MAX,
    ensures
        base == 0 ==> gc_bounds(base, replicas) is None,
        base > 0 ==> gc_bounds(base, replicas) is Some,
        base > 0 ==> ({
            let share = base / replicas;
            let (lower, upper) = gc_bounds(base, replicas)->0;
            &&& base - share >= 1 ==> lower == base - share
            &&& base - share < 1 ==> lower == 1
            &&& lower < base + share <= u128::MAX ==> upper == base + share
            &&& base + share > u128::MAX && lower < u128::MAX ==> upper == u128::MAX
            &&& base + share <= lower ==> upper == lower + 1
        }),
{
}

/// A replica counts itself among the replicas, and an interval is cut to what
/// 64 bits hold.
pub proof fn law_replicas_and_nanoseconds(peers: usize, drawn: u128)
    ensures
        peers < usize::MAX ==> replica_count(peers) == peers + 1,
        peers == usize::MAX ==> replica_count(peers) == usize::MAX,
        drawn <= u64::MAX ==> clamped(drawn) == drawn,
        drawn > u64::MAX ==> clamped(drawn) == u64::MAX,
{
}

} // verus!
