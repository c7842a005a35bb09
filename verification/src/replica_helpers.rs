//! Configuration of a replica, and the descriptors by which replicas announce
//! themselves.

use vstd::prelude::*;
use crate::dots::Counter;
use crate::prelude::{random_between, Pid, SocketAddress};
use crate::text::{
    append_chars, chars_equal, chars_of, decimal, format_i64, format_u128, last_piece,
    lemma_split_append, lemma_split_plain, parse_i64, parse_u128, pieces_view, signed_decimal,
    signed_value, split, split_chars, text_of, trim_chars, trimmed, unsigned_value,
};

pub use crate::replica_config::{ConfigError, ReplicaConfig, ReplicaEnv};

pub mod operations;

verus! {

/// What a replica publishes of itself in the membership directory. One with a
/// final counter retires the replica.
#[derive(Debug, Clone, Copy, PartialEq, Eq, Structural)]
pub struct ReplicaDescriptor {
    pub pid: Pid,
    pub address: SocketAddress,
    pub gc_counter: Counter,
    pub final_counter: Option<Counter>,
}

/// The fields of a descriptor as they are written, the address still as text.
#[derive(Debug, Clone, PartialEq, Eq)]
pub struct DescriptorFields {
    pub pid: Pid,
    pub address: String,
    pub gc_counter: Counter,
    pub final_counter: Option<Counter>,
}

/// A name in the membership directory that is no descriptor.
#[derive(Debug, Clone, Copy, PartialEq, Eq, Structural)]
pub struct ReplicaDescriptorParseError;

/// The text of a descriptor: its fields with commas between them.
pub open spec fn descriptor_text(
    pid: Pid,
    address: Seq<char>,
    gc_counter: Counter,
    final_counter: Option<Counter>,
) -> Seq<char> {
    let head = decimal(pid as nat).push(',') + address;
    let with_epoch = head.push(',') + signed_decimal(gc_counter as int);
    match final_counter {
        Some(counter) => with_epoch.push(',') + signed_decimal(counter as int),
        None => with_epoch,
    }
}

/// The identity that a text denotes.
pub open spec fn pid_value(text: Seq<char>) -> Option<Pid> {
    match unsigned_value(text) {
        Some(n) => if n <= u128::MAX {
            Some(n as Pid)
        } else {
            None
        },
        None => None,
    }
}

/// The counter that a text denotes.
pub open spec fn counter_value(text: Seq<char>) -> Option<Counter> {
    match signed_value(text) {
        Some(z) => if i64::MIN <= z <= i64::MAX {
            Some(z as Counter)
        } else {
            None
        },
        None => None,
    }
}

/// The fields that a path in the membership directory names: three or four of
/// them after the last slash, with commas between them.
pub open spec fn descriptor_fields(path: Seq<char>) -> Option<
    (Pid, Seq<char>, Counter, Option<Counter>),
> {
    let fields = split(last_piece(path, '/'), ',');
    if fields.len() == 3 {
        match (pid_value(fields[0]), counter_value(fields[2])) {
            (Some(pid), Some(gc_counter)) => Some((pid, fields[1], gc_counter, None)),
            _ => None,
        }
    } else if fields.len() == 4 {
        match (pid_value(fields[0]), counter_value(fields[2]), counter_value(fields[3])) {
            (Some(pid), Some(gc_counter), Some(counter)) => Some(
                (pid, fields[1], gc_counter, Some(counter)),
            ),
            _ => None,
        }
    } else {
        None
    }
}

/// The descriptor that a path in the membership directory names, where
/// `denotes` tells which address a text stands for.
pub open spec fn descriptor_value(
    path: Seq<char>,
    denotes: spec_fn(Seq<char>) -> Option<SocketAddress>,
) -> Option<ReplicaDescriptor> {
    match descriptor_fields(path) {
        Some((pid, text, gc_counter, final_counter)) => match denotes(text) {
            Some(address) => Some(ReplicaDescriptor { pid, address, gc_counter, final_counter }),
            None => None,
        },
        None => None,
    }
}

/// Whether `denotes` tells what the executable function `f` reads.
pub open spec fn reads_as<F: Fn(&str) -> Option<SocketAddress>>(
    f: F,
    denotes: spec_fn(Seq<char>) -> Option<SocketAddress>,
) -> bool {
    forall|text: &str, address: Option<SocketAddress>| #[trigger]
        call_ensures(f, (text,), address) ==> address == denotes(text@)
}

/// A path without the slashes at its end.
pub open spec fn without_end_slashes(path: Seq<char>) -> Seq<char>
    decreases path.len(),
{
    if path.len() > 0 && path.last() == '/' {
        without_end_slashes(path.drop_last())
    } else {
        path
    }
}

/// The meaning of [`DescriptorFields`].
pub open spec fn fields_view(fields: DescriptorFields) -> (
    Pid,
    Seq<char>,
    Counter,
    Option<Counter>,
) {
    (fields.pid, fields.address@, fields.gc_counter, fields.final_counter)
}

impl DescriptorFields {
    /// Reads the name of an object in the membership directory.
    pub fn parse(value: &str) -> (parsed: Result<Self, ReplicaDescriptorParseError>)
        ensures
            match parsed {
                Ok(fields) => descriptor_fields(value@) == Some(fields_view(fields)),
                Err(_) => descriptor_fields(value@) is None,
            },
    {
        let mut segments = split_chars(&chars_of(value), '/');
        let ghost all = pieces_view(segments@);
        let segment = match segments.pop() {
            Some(segment) => segment,
            None => Vec::new(),
        };
        assert(segment@ == all.last());
        let parts = split_chars(&segment, ',');
        let ghost fields = pieces_view(parts@);
        assert(fields == split(last_piece(value@, '/'), ','));
        if parts.len() != 3 && parts.len() != 4 {
            return Err(ReplicaDescriptorParseError);
        }
        assert(fields[0] == parts@[0]@ && fields[1] == parts@[1]@ && fields[2] == parts@[2]@);
        let pid: Pid = match parse_u128(&parts[0]) {
            Some(pid) => pid,
            None => {
                return Err(ReplicaDescriptorParseError);
            },
        };
        let gc_counter: Counter = match parse_i64(&parts[2]) {
            Some(counter) => counter,
            None => {
                return Err(ReplicaDescriptorParseError);
            },
        };
        let final_counter: Option<Counter> = if parts.len() == 4 {
            assert(fields[3] == parts@[3]@);
            match parse_i64(&parts[3]) {
                Some(counter) => Some(counter),
                None => {
                    return Err(ReplicaDescriptorParseError);
                },
            }
        } else {
            None
        };
        Ok(DescriptorFields { pid, address: text_of(&parts[1]), gc_counter, final_counter })
    }

    /// The descriptor, given what its address text denotes.
    pub fn with_address(self, address: Option<SocketAddress>) -> (descriptor: Result<
        ReplicaDescriptor,
        ReplicaDescriptorParseError,
    >)
        ensures
            descriptor == match address {
                Some(address) => Ok::<ReplicaDescriptor, ReplicaDescriptorParseError>(
                    ReplicaDescriptor {
                        pid: self.pid,
                        address,
                        gc_counter: self.gc_counter,
                        final_counter: self.final_counter,
                    },
                ),
                None => Err(ReplicaDescriptorParseError),
            },
    {
        match address {
            Some(address) => Ok(
                ReplicaDescriptor {
                    pid: self.pid,
                    address,
                    gc_counter: self.gc_counter,
                    final_counter: self.final_counter,
                },
            ),
            None => Err(ReplicaDescriptorParseError),
        }
    }
}

impl ReplicaDescriptor {
    /// Reads the name of an object in the membership directory, where
    /// `read_address` reads the text of an address.
    pub fn from_str<F>(value: &str, read_address: F) -> (parsed: Result<
        Self,
        ReplicaDescriptorParseError,
    >) where F: Fn(&str) -> Option<SocketAddress>
        requires
            forall|text: &str| #[trigger] call_requires(read_address, (text,)),
        ensures
            match descriptor_fields(value@) {
                Some((pid, written, gc_counter, final_counter)) => exists|
                    text: &str,
                    address: Option<SocketAddress>,
                |
                    text@ == written && #[trigger] call_ensures(read_address, (text,), address)
                        && match address {
                        Some(address) => parsed == Ok::<Self, ReplicaDescriptorParseError>(
                            ReplicaDescriptor { pid, address, gc_counter, final_counter },
                        ),
                        None => parsed == Err::<Self, ReplicaDescriptorParseError>(
                            ReplicaDescriptorParseError,
                        ),
                    },
                None => parsed == Err::<Self, ReplicaDescriptorParseError>(
                    ReplicaDescriptorParseError,
                ),
            },
            forall|denotes: spec_fn(Seq<char>) -> Option<SocketAddress>| #[trigger]
                reads_as(read_address, denotes) ==> match descriptor_value(value@, denotes) {
                    Some(descriptor) => parsed == Ok::<Self, ReplicaDescriptorParseError>(
                        descriptor,
                    ),
                    None => parsed is Err,
                },
    {
        match DescriptorFields::parse(value) {
            Ok(fields) => {
                let text = fields.address.as_str();
                let address = read_address(text);
                assert(call_ensures(read_address, (text,), address));
                fields.with_address(address)
            },
            Err(_) => Err(ReplicaDescriptorParseError),
        }
    }

    /// The name of the descriptor, given the text of its address.
    pub fn to_text(&self, address: &str) -> (text: String)
        ensures
            text@ == descriptor_text(self.pid, address@, self.gc_counter, self.final_counter),
    {
        let chars = self.to_chars(address);
        text_of(&chars)
    }

    /// The characters of [`ReplicaDescriptor::to_text`].
    fn to_chars(&self, address: &str) -> (chars: Vec<char>)
        ensures
            chars@ == descriptor_text(self.pid, address@, self.gc_counter, self.final_counter),
    {
        let mut chars = format_u128(self.pid);
        chars.push(',');
        append_chars(&mut chars, &chars_of(address));
        chars.push(',');
        append_chars(&mut chars, &format_i64(self.gc_counter));
        if let Some(counter) = self.final_counter {
            chars.push(',');
            append_chars(&mut chars, &format_i64(counter));
        }
        chars
    }

    /// Where the descriptor stands in the membership directory, given the text
    /// of its address.
    pub fn object_path(&self, membership_directory_path: &str, address: &str) -> (path: String)
        ensures
            path@ == without_end_slashes(membership_directory_path@).push('/') + descriptor_text(
                self.pid,
                address@,
                self.gc_counter,
                self.final_counter,
            ),
    {
        let mut path = chars_of(membership_directory_path);
        while path.len() > 0 && path[path.len() - 1] == '/'
            invariant
                without_end_slashes(path@) == without_end_slashes(membership_directory_path@),
            decreases path@.len(),
        {
            let ghost before = path@;
            path.pop();
            assert(path@ =~= before.drop_last());
        }
        path.push('/');
        append_chars(&mut path, &self.to_chars(address));
        text_of(&path)
    }

    /// Whether the descriptor retires its replica.
    pub fn is_shutdown(&self) -> (shutdown: bool)
        ensures
            shutdown == (self.final_counter is Some),
    {
        self.final_counter.is_some()
    }
}

/// The digits of a number hold neither separator.
proof fn lemma_digits_are_plain(n: nat, z: int)
    ensures
        !decimal(n).contains(','),
        !decimal(n).contains('/'),
        !signed_decimal(z).contains(','),
        !signed_decimal(z).contains('/'),
{
    crate::text::lemma_decimal(n);
    let magnitude = (if z < 0 {
        -z
    } else {
        z
    }) as nat;
    crate::text::lemma_decimal(magnitude);
    assert forall|i: int| 0 <= i < decimal(n).len() implies decimal(n)[i] != ',' && decimal(n)[i]
        != '/' by {
        assert(crate::text::is_digit(decimal(n)[i]));
    }
    let text = signed_decimal(z);
    assert forall|i: int| 0 <= i < text.len() implies text[i] != ',' && text[i] != '/' by {
        if z < 0 {
            if i > 0 {
                assert(text[i] == decimal(magnitude)[i - 1]);
                assert(crate::text::is_digit(decimal(magnitude)[i - 1]));
            }
        } else {
            assert(crate::text::is_digit(decimal(magnitude)[i]));
        }
    }
}

/// What two texts hold together.
proof fn lemma_concat_contains(a: Seq<char>, b: Seq<char>, c: char)
    ensures
        (a + b).contains(c) <==> a.contains(c) || b.contains(c),
{
    if (a + b).contains(c) {
        let i = choose|i: int| 0 <= i < (a + b).len() && (a + b)[i] == c;
        if i < a.len() {
            assert(a[i] == c);
        } else {
            assert(b[i - a.len()] == c);
        }
    }
    if a.contains(c) {
        let i = choose|i: int| 0 <= i < a.len() && a[i] == c;
        assert((a + b)[i] == c);
    }
    if b.contains(c) {
        let i = choose|i: int| 0 <= i < b.len() && b[i] == c;
        assert((a + b)[a.len() + i] == c);
    }
}

/// A text without `c` stays so with another character at its end.
proof fn lemma_push_contains(a: Seq<char>, last: char, c: char)
    ensures
        a.push(last).contains(c) <==> a.contains(c) || last == c,
{
    assert(a.push(last) =~= a + seq![last]);
    lemma_concat_contains(a, seq![last], c);
    assert(seq![last].contains(c) <==> last == c) by {
        assert(seq![last][0] == last);
    }
}

/// A descriptor that is written and read back is the same, by its plain text
/// and by its path in any directory. Of the address it takes a text without
/// separators that is read as the address.
pub proof fn law_descriptors_are_read_back(
    descriptor: ReplicaDescriptor,
    directory: Seq<char>,
    address: Seq<char>,
    denotes: spec_fn(Seq<char>) -> Option<SocketAddress>,
)
    requires
        !address.contains(','),
        !address.contains('/'),
        denotes(address) == Some(descriptor.address),
    ensures
        ({
            let text = descriptor_text(
                descriptor.pid,
                address,
                descriptor.gc_counter,
                descriptor.final_counter,
            );
            &&& descriptor_value(text, denotes) == Some(descriptor)
            &&& descriptor_value(without_end_slashes(directory).push('/') + text, denotes) == Some(
                descriptor,
            )
            &&& descriptor_fields(text) == Some(
                (
                    descriptor.pid,
                    address,
                    descriptor.gc_counter,
                    descriptor.final_counter,
                ),
            )
        }),
{
    lemma_fields_are_read_back(
        without_end_slashes(directory),
        descriptor.pid,
        address,
        descriptor.gc_counter,
        descriptor.final_counter,
    );
}

/// The fields of a descriptor are read back from its text, behind a directory
/// or not.
proof fn lemma_fields_are_read_back(
    directory: Seq<char>,
    pid: Pid,
    address: Seq<char>,
    gc_counter: Counter,
    final_counter: Option<Counter>,
)
    requires
        !address.contains(','),
        !address.contains('/'),
    ensures
        descriptor_fields(descriptor_text(pid, address, gc_counter, final_counter)) == Some(
            (pid, address, gc_counter, final_counter),
        ),
        descriptor_fields(
            directory.push('/') + descriptor_text(pid, address, gc_counter, final_counter),
        ) == Some((pid, address, gc_counter, final_counter)),
{
    let text = descriptor_text(pid, address, gc_counter, final_counter);
    let epoch = signed_decimal(gc_counter as int);
    let number = decimal(pid as nat);
    lemma_digits_are_plain(pid as nat, gc_counter as int);
    crate::text::law_numbers_are_read_back(pid as nat, gc_counter as int);
    let head = number.push(',') + address;
    let with_epoch = head.push(',') + epoch;
    lemma_split_plain(number, ',');
    lemma_split_append(number, ',', address);
    lemma_split_append(head, ',', epoch);
    lemma_push_contains(number, ',', '/');
    lemma_concat_contains(number.push(','), address, '/');
    lemma_push_contains(head, ',', '/');
    lemma_concat_contains(head.push(','), epoch, '/');
    let fields = seq![number].push(address).push(epoch);
    assert(split(with_epoch, ',') == fields);
    match final_counter {
        Some(counter) => {
            let last = signed_decimal(counter as int);
            lemma_digits_are_plain(0, counter as int);
            crate::text::law_numbers_are_read_back(0, counter as int);
            lemma_split_append(with_epoch, ',', last);
            lemma_push_contains(with_epoch, ',', '/');
            lemma_concat_contains(with_epoch.push(','), last, '/');
            assert(split(text, ',') == fields.push(last));
        },
        None => {},
    }
    assert(!text.contains('/'));
    lemma_split_plain(text, '/');
    assert(last_piece(text, '/') == text);
    lemma_split_append(directory, '/', text);
    assert(last_piece(directory.push('/') + text, '/') == text);
}

/// The letter `c` in lower case, if it is an ASCII letter.
pub open spec fn lowered(c: char) -> char {
    if 'A' <= c <= 'Z' {
        ((c as u32) + 32) as char
    } else {
        c
    }
}

/// What a trimmed text says as a flag, whatever the case of its letters.
pub open spec fn flag_value(text: Seq<char>) -> Option<bool> {
    let lower = text.map_values(|c: char| lowered(c));
    if lower == "1"@ || lower == "true"@ || lower == "yes"@ || lower == "on"@ {
        Some(true)
    } else if lower == "0"@ || lower == "false"@ || lower == "no"@ || lower == "off"@ {
        Some(false)
    } else {
        None
    }
}

/// Lowers an ASCII letter.
fn lower(c: char) -> (low: char)
    ensures
        low == lowered(c),
{
    match c {
        'A' => 'a',
        'B' => 'b',
        'C' => 'c',
        'D' => 'd',
        'E' => 'e',
        'F' => 'f',
        'G' => 'g',
        'H' => 'h',
        'I' => 'i',
        'J' => 'j',
        'K' => 'k',
        'L' => 'l',
        'M' => 'm',
        'N' => 'n',
        'O' => 'o',
        'P' => 'p',
        'Q' => 'q',
        'R' => 'r',
        'S' => 's',
        'T' => 't',
        'U' => 'u',
        'V' => 'v',
        'W' => 'w',
        'X' => 'x',
        'Y' => 'y',
        'Z' => 'z',
        _ => c,
    }
}

/// Reads a trimmed text as a flag.
pub fn parse_flag(text: &Vec<char>) -> (flag: Option<bool>)
    ensures
        flag == flag_value(text@),
{
    let mut lowercase: Vec<char> = Vec::new();
    for i in 0..text.len()
        invariant
            lowercase@.len() == i,
            forall|j: int| 0 <= j < i ==> lowercase@[j] == lowered(text@[j]),
    {
        lowercase.push(lower(text[i]));
    }
    assert(lowercase@ =~= text@.map_values(|c: char| lowered(c)));
    if chars_equal(&lowercase, "1") || chars_equal(&lowercase, "true") || chars_equal(
        &lowercase,
        "yes",
    ) || chars_equal(&lowercase, "on") {
        Some(true)
    } else if chars_equal(&lowercase, "0") || chars_equal(&lowercase, "false") || chars_equal(
        &lowercase,
        "no",
    ) || chars_equal(&lowercase, "off") {
        Some(false)
    } else {
        None
    }
}

/// Whether a text holds nothing but white space.
pub open spec fn is_blank(text: Seq<char>) -> bool {
    trimmed(text).len() == 0
}

/// Whether a text holds nothing but white space.
pub fn blank(text: &str) -> (blank: bool)
    ensures
        blank == is_blank(text@),
{
    trim_chars(&chars_of(text)).len() == 0
}

/// The bounds between which the next garbage-collection round is set: the
/// interval, give or take its share among the replicas. An interval of zero
/// has none.
pub open spec fn gc_bounds(base: nat, replicas: nat) -> Option<(nat, nat)> {
    if base == 0 {
        None
    } else {
        let jitter = base / replicas;
        let lower = if base - jitter < 1 {
            1
        } else {
            (base - jitter) as nat
        };
        let sum = if base + jitter > u128::MAX {
            u128::MAX as nat
        } else {
            base + jitter
        };
        let upper = if sum < lower + 1 {
            lower + 1
        } else {
            sum
        };
        Some((lower, upper))
    }
}

/// The number of replicas, with `peer_count` peers.
pub open spec fn replica_count(peer_count: usize) -> nat {
    if peer_count == usize::MAX {
        usize::MAX as nat
    } else {
        (peer_count + 1) as nat
    }
}

/// Computes [`gc_bounds`], in nanoseconds.
pub fn gc_interval_bounds(base_nanos: u128, peer_count: usize) -> (bounds: Option<(u128, u128)>)
    ensures
        match bounds {
            Some((lower, upper)) => gc_bounds(base_nanos as nat, replica_count(peer_count)) == Some(
                (lower as nat, upper as nat),
            ) && 1 <= lower < upper,
            None => gc_bounds(base_nanos as nat, replica_count(peer_count)) is None,
        },
{
    if base_nanos == 0 {
        return None;
    }
    let replicas: u128 = peer_count.saturating_add(1) as u128;
    let jitter: u128 = base_nanos / replicas;
    proof {
        let base = base_nanos as int;
        let count = replicas as int;
        assert(jitter as int == base / count);
        assert(0 <= base / count <= base) by (nonlinear_arith)
            requires
                base >= 0,
                count >= 1,
        ;
        if base == u128::MAX {
            assert(base / count >= 1) by (nonlinear_arith)
                requires
                    base >= count,
                    count >= 1,
            ;
        }
    }
    let least: u128 = base_nanos - jitter;
    let lower: u128 = if least < 1 {
        1
    } else {
        least
    };
    let sum: u128 = base_nanos.saturating_add(jitter);
    let upper: u128 = if sum < lower + 1 {
        lower + 1
    } else {
        sum
    };
    Some((lower, upper))
}

/// An interval in nanoseconds, as far as 64 bits hold it.
pub fn clamped_nanos(drawn: u128) -> (nanos: u64)
    ensures
        nanos == if drawn <= u64::MAX {
            drawn
        } else {
            u64::MAX as u128
        },
{
    if drawn <= u64::MAX as u128 {
        drawn as u64
    } else {
        u64::MAX
    }
}

/// Draws the time to the next garbage-collection round, in nanoseconds.
pub fn draw_gc_interval(base_nanos: u128, peer_count: usize) -> (nanos: u64)
    ensures
        match gc_bounds(base_nanos as nat, replica_count(peer_count)) {
            Some((lower, upper)) => exists|drawn: u128|
                lower <= drawn <= upper && nanos == #[trigger] clamped(drawn),
            None => nanos == 1,
        },
{
    match gc_interval_bounds(base_nanos, peer_count) {
        Some((lower, upper)) => {
            let drawn: u128 = random_between(lower, upper);
            let nanos: u64 = clamped_nanos(drawn);
            assert(nanos == clamped(drawn));
            nanos
        },
        None => 1,
    }
}

/// What 64 bits hold of an interval.
pub open spec fn clamped(drawn: u128) -> u64 {
    if drawn <= u64::MAX {
        drawn as u64
    } else {
        u64::MAX
    }
}

/// The interval between rounds stays around the configured one: it is at least
/// one nanosecond, at most about twice the configured interval, and the more
/// replicas there are, the closer to it.
pub proof fn law_gc_interval_is_close(base: nat, replicas: nat)
    requires
        0 < base,
        2 * base < u128::MAX,
        replicas > 0,
    ensures
        ({
            let (lower, upper) = gc_bounds(base, replicas)->0;
            &&& 1 <= lower <= base
            &&& base <= upper <= 2 * base
            &&& base - lower <= base / replicas
            &&& upper - base <= base / replicas + 1
        }),
{
    assert(0 <= base / replicas <= base) by (nonlinear_arith)
        requires
            replicas > 0,
    ;
}

} // verus!
