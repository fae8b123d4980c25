//! Reading the queried host name out of a DNS message, and writing a host
//! name as DNS labels.
use vstd::prelude::*;
use crate::text::{join, lemma_join_prepend, split};

verus! {

/// Where the question section, and so the queried name, begins: right
/// after the twelve bytes of the message header.
pub const QUESTION_START: usize = 12;

/// How many pointers are followed, one after another, in reading a name.
/// A pointer's target is one of 16384 offsets, so a name that needs more
/// pointers than that runs round a cycle and would be followed for ever.
pub const POINTER_DEPTH: usize = 16384;

/// The text of a label: each byte read as the character with that code.
pub open spec fn label_text(bytes: Seq<u8>) -> Seq<char> {
    bytes.map_values(|b: u8| b as char)
}

/// Where a two-byte pointer sends the reading: the fourteen bits that
/// follow its two high bits `11`.
pub open spec fn pointer_target(first: u8, second: u8) -> int {
    (first as int % 64) * 256 + second as int
}

/// The outcome of reading labels.
pub enum Walk {
    /// The labels read, up to the terminating zero length or a pointer.
    Labels(Seq<Seq<char>>),
    /// The message ends before a label, a pointer, or a terminator it
    /// announces.
    Malformed,
    /// More pointers than the depth allowed.
    Exhausted,
}

/// `acc` followed by what `w` read; errors pass through.
pub open spec fn after_labels(acc: Seq<Seq<char>>, w: Walk) -> Walk {
    match w {
        Walk::Labels(rest) => Walk::Labels(acc + rest),
        other => other,
    }
}

/// The name read at a pointer's target, standing as one label: its labels
/// joined with dots. Errors pass through.
pub open spec fn as_label(w: Walk) -> Walk {
    match w {
        Walk::Labels(inner) => Walk::Labels(seq![join(inner, '.')]),
        other => other,
    }
}

/// The labels read from `msg` starting at `pos`, following at most
/// `depth` pointers (RFC 1035, section 4.1.4). A byte whose two high bits
/// are `11` starts a two-byte pointer: the name read at its target stands
/// as the last label, joined with dots, and the pointer ends the name.
/// Any other byte is a label length: zero ends the name, another length
/// is followed by that many bytes of label. Each pointer, and each length
/// together with the bytes it counts, must lie before the end of the
/// message.
pub open spec fn walk(msg: Seq<u8>, pos: int, depth: nat) -> Walk
    decreases depth, msg.len() - pos,
{
    if pos < 0 || pos >= msg.len() {
        Walk::Malformed
    } else {
        let len = msg[pos] as int;
        if len >= 192 {
            if pos + 1 >= msg.len() {
                Walk::Malformed
            } else if depth == 0 {
                Walk::Exhausted
            } else {
                as_label(walk(msg, pointer_target(msg[pos], msg[pos + 1]), (depth - 1) as nat))
            }
        } else if pos + len >= msg.len() {
            Walk::Malformed
        } else if len == 0 {
            Walk::Labels(Seq::empty())
        } else {
            after_labels(
                seq![label_text(msg.subrange(pos + 1, pos + 1 + len))],
                walk(msg, pos + len + 1, depth),
            )
        }
    }
}

/// Law: a name that can be read with some pointer depth reads the same
/// with any greater depth.
pub proof fn lemma_walk_deeper(msg: Seq<u8>, pos: int, d1: nat, d2: nat)
    requires
        d1 <= d2,
        !(walk(msg, pos, d1) is Exhausted),
    ensures
        walk(msg, pos, d2) == walk(msg, pos, d1),
    decreases d1, msg.len() - pos,
{
    if 0 <= pos < msg.len() {
        let len = msg[pos] as int;
        if len >= 192 {
            if pos + 1 < msg.len() {
                let t = pointer_target(msg[pos], msg[pos + 1]);
                lemma_walk_deeper(msg, t, (d1 - 1) as nat, (d2 - 1) as nat);
            }
        } else if pos + len < msg.len() && len != 0 {
            lemma_walk_deeper(msg, pos + len + 1, d1, d2);
        }
    }
}

/// The pointer targets: the offsets that fourteen bits can hold.
pub open spec fn targets() -> Set<int> {
    vstd::set_lib::set_int_range(0, POINTER_DEPTH as int)
}

/// The labels at `pos` read with a record of the pointer targets already
/// followed: a pointer back to one of them would lead round the same cycle
/// for ever, and gives `Exhausted`.
pub open spec fn resolve(msg: Seq<u8>, pos: int, seen: Set<int>) -> Walk
    decreases targets().difference(seen).len(), msg.len() - pos,
{
    if pos < 0 || pos >= msg.len() {
        Walk::Malformed
    } else {
        let len = msg[pos] as int;
        if len >= 192 {
            if pos + 1 >= msg.len() {
                Walk::Malformed
            } else {
                let t = pointer_target(msg[pos], msg[pos + 1]);
                if seen.contains(t) {
                    Walk::Exhausted
                } else {
                    proof {
                        lemma_fewer_unseen(seen, t);
                    }
                    as_label(resolve(msg, t, seen.insert(t)))
                }
            }
        } else if pos + len >= msg.len() {
            Walk::Malformed
        } else if len == 0 {
            Walk::Labels(Seq::empty())
        } else {
            after_labels(
                seq![label_text(msg.subrange(pos + 1, pos + 1 + len))],
                resolve(msg, pos + len + 1, seen),
            )
        }
    }
}

/// Marking a further target as seen leaves fewer unseen ones.
pub proof fn lemma_fewer_unseen(seen: Set<int>, t: int)
    requires
        0 <= t < POINTER_DEPTH,
        !seen.contains(t),
    ensures
        targets().difference(seen.insert(t)).len() < targets().difference(seen).len(),
{
    vstd::set_lib::lemma_int_range(0, POINTER_DEPTH as int);
    let before = targets().difference(seen);
    vstd::set_lib::lemma_len_subset(before, targets());
    assert(targets().difference(seen.insert(t)) =~= before.remove(t));
    assert(before.contains(t));
}

/// Where both finish, reading with a depth and reading with a record of
/// targets agree.
proof fn lemma_walk_resolve_agree(msg: Seq<u8>, pos: int, d: nat, seen: Set<int>)
    requires
        !(walk(msg, pos, d) is Exhausted),
        !(resolve(msg, pos, seen) is Exhausted),
    ensures
        walk(msg, pos, d) == resolve(msg, pos, seen),
    decreases d, msg.len() - pos,
{
    if 0 <= pos < msg.len() {
        let len = msg[pos] as int;
        if len >= 192 {
            if pos + 1 < msg.len() {
                let t = pointer_target(msg[pos], msg[pos + 1]);
                lemma_walk_resolve_agree(msg, t, (d - 1) as nat, seen.insert(t));
            }
        } else if pos + len < msg.len() && len != 0 {
            lemma_walk_resolve_agree(msg, pos + len + 1, d, seen);
        }
    }
}

/// With one level of depth for each target not yet seen, reading with a
/// depth finishes wherever reading with the record does.
proof fn lemma_resolve_depth_enough(msg: Seq<u8>, pos: int, d: nat, seen: Set<int>)
    requires
        !(resolve(msg, pos, seen) is Exhausted),
        seen.subset_of(targets()),
        d + seen.len() >= POINTER_DEPTH,
    ensures
        walk(msg, pos, d) == resolve(msg, pos, seen),
    decreases d, msg.len() - pos,
{
    vstd::set_lib::lemma_int_range(0, POINTER_DEPTH as int);
    vstd::set_lib::lemma_len_subset(seen, targets());
    if 0 <= pos < msg.len() {
        let len = msg[pos] as int;
        if len >= 192 {
            if pos + 1 < msg.len() {
                let t = pointer_target(msg[pos], msg[pos + 1]);
                let more = seen.insert(t);
                assert(more.subset_of(targets()));
                vstd::set_lib::lemma_len_subset(more, targets());
                assert(more.len() == seen.len() + 1);
                lemma_resolve_depth_enough(msg, t, (d - 1) as nat, more);
            }
        } else if pos + len < msg.len() && len != 0 {
            lemma_resolve_depth_enough(msg, pos + len + 1, d, seen);
        }
    }
}

/// A name that runs into a target already followed is never read, at any
/// depth, as long as reading at each seen target with less depth never
/// finishes either.
proof fn lemma_cycle_never_ends(msg: Seq<u8>, pos: int, seen: Set<int>, d: nat)
    requires
        resolve(msg, pos, seen) is Exhausted,
        forall|a: int, g: nat| seen.contains(a) && g < d ==> #[trigger] walk(msg, a, g) is Exhausted,
    ensures
        walk(msg, pos, d) is Exhausted,
    decreases d, 1nat, msg.len() - pos,
{
    let len = msg[pos] as int;
    if len >= 192 {
        let t = pointer_target(msg[pos], msg[pos + 1]);
        if d > 0 {
            if seen.contains(t) {
                assert(walk(msg, t, (d - 1) as nat) is Exhausted);
            } else {
                lemma_target_never_ends(msg, t, seen, d);
                assert(walk(msg, t, (d - 1) as nat) is Exhausted);
            }
        }
    } else {
        lemma_cycle_never_ends(msg, pos + len + 1, seen, d);
    }
}

/// Reading at a target whose name leads back to itself never finishes
/// with less than `n` depth.
proof fn lemma_target_never_ends(msg: Seq<u8>, t: int, seen: Set<int>, n: nat)
    requires
        resolve(msg, t, seen.insert(t)) is Exhausted,
        forall|a: int, g: nat| seen.contains(a) && g < n ==> #[trigger] walk(msg, a, g) is Exhausted,
    ensures
        forall|g: nat| g < n ==> #[trigger] walk(msg, t, g) is Exhausted,
    decreases n, 0nat, 0nat,
{
    if n > 0 {
        lemma_target_never_ends(msg, t, seen, (n - 1) as nat);
        let more = seen.insert(t);
        lemma_cycle_never_ends(msg, t, more, (n - 1) as nat);
    }
}

/// Law: a name that cannot be read within `POINTER_DEPTH` pointers cannot
/// be read with any depth: following its pointers without limit, as a
/// reader that recurses on each pointer does, never ends.
pub proof fn lemma_walk_exhausted_for_ever(msg: Seq<u8>, pos: int, d: nat)
    requires
        walk(msg, pos, POINTER_DEPTH as nat) is Exhausted,
    ensures
        walk(msg, pos, d) is Exhausted,
{
    let none = Set::<int>::empty();
    assert(none.subset_of(targets()));
    if !(resolve(msg, pos, none) is Exhausted) {
        lemma_resolve_depth_enough(msg, pos, POINTER_DEPTH as nat, none);
    }
    lemma_cycle_never_ends(msg, pos, none, d);
}

/// Why no name could be read.
pub enum NameError {
    /// The message ends before a label, a pointer or a terminator it
    /// announces.
    Malformed,
    /// The pointers run round a cycle.
    PointerCycle,
}

/// What reading a name gives, as text: the labels joined with dots.
pub open spec fn name_outcome(w: Walk) -> Result<Seq<char>, NameError> {
    match w {
        Walk::Labels(labels) => Ok(join(labels, '.')),
        Walk::Malformed => Err(NameError::Malformed),
        Walk::Exhausted => Err(NameError::PointerCycle),
    }
}

/// A `Result` holding a `String`, taken by the string's characters.
pub open spec fn text_result<E>(r: Result<String, E>) -> Result<Seq<char>, E> {
    match r {
        Ok(s) => Ok(s@),
        Err(e) => Err(e),
    }
}

/// The text of a name whose first part `done` is already written: `any`
/// tells whether labels of the current level stand in it, so that a dot
/// separates them from the labels `w` reads.
pub open spec fn continue_text(done: Seq<char>, any: bool, w: Walk) -> Result<Seq<char>, NameError> {
    match w {
        Walk::Labels(labels) => Ok(
            if labels.len() == 0 {
                done
            } else if any {
                done.push('.') + join(labels, '.')
            } else {
                done + join(labels, '.')
            },
        ),
        Walk::Malformed => Err(NameError::Malformed),
        Walk::Exhausted => Err(NameError::PointerCycle),
    }
}

/// Reads the name at `start`, following at most `POINTER_DEPTH` pointers,
/// and joins its labels with dots.
fn read_name(msg: &[u8], start: usize) -> (r: Result<String, NameError>)
    ensures
        text_result(r) == name_outcome(walk(msg@, start as int, POINTER_DEPTH as nat)),
{
    let n = msg.len();
    let mut pos = start;
    let mut depth: usize = POINTER_DEPTH;
    let mut out = String::new();
    let mut any = false;
    assert(out@ + join(Seq::<Seq<char>>::empty(), '.') =~= out@);
    loop
        invariant
            n == msg@.len(),
            depth <= POINTER_DEPTH,
            name_outcome(walk(msg@, start as int, POINTER_DEPTH as nat)) == continue_text(
                out@,
                any,
                walk(msg@, pos as int, depth as nat),
            ),
        decreases depth, n - pos,
    {
        if pos >= n {
            return Err(NameError::Malformed);
        }
        let len = msg[pos];
        if len >= 192 {
            if n - pos <= 1 {
                return Err(NameError::Malformed);
            }
            if depth == 0 {
                return Err(NameError::PointerCycle);
            }
            let target = ((len % 64) as usize) * 256 + (msg[pos + 1] as usize);
            let ghost inner = walk(msg@, target as int, (depth - 1) as nat);
            let ghost before = out@;
            let ghost had = any;
            assert(walk(msg@, pos as int, depth as nat) == as_label(inner));
            if any {
                crate::text::push_char(&mut out, '.');
            }
            proof {
                if let Walk::Labels(ls) = inner {
                    assert(join(seq![join(ls, '.')], '.') == join(ls, '.'));
                    if ls.len() == 0 {
                        assert(out@ + join(ls, '.') =~= out@);
                    }
                    if had {
                        assert(before.push('.') + join(ls, '.') =~= out@ + join(ls, '.'));
                    }
                }
            }
            any = false;
            pos = target;
            depth = depth - 1;
        } else {
            if (len as usize) >= n - pos {
                return Err(NameError::Malformed);
            }
            if len == 0 {
                return Ok(out);
            }
            let end = pos + 1 + (len as usize);
            let ghost t = label_text(msg@.subrange(pos + 1, end as int));
            let ghost next = walk(msg@, end as int, depth as nat);
            assert(walk(msg@, pos as int, depth as nat) == after_labels(seq![t], next));
            let ghost before = out@;
            let ghost had = any;
            if any {
                crate::text::push_char(&mut out, '.');
            }
            let ghost base = out@;
            let mut k = pos + 1;
            while k < end
                invariant
                    pos + 1 <= k <= end <= n,
                    n == msg@.len(),
                    out@ == base + label_text(msg@.subrange(pos + 1, k as int)),
                decreases end - k,
            {
                crate::text::push_char(&mut out, msg[k] as char);
                k = k + 1;
                assert(out@ =~= base + label_text(msg@.subrange(pos + 1, k as int)));
            }
            proof {
                if let Walk::Labels(r) = next {
                    lemma_join_prepend(t, r, '.');
                    if r.len() == 0 {
                        assert(seq![t] + r =~= seq![t]);
                    } else {
                        assert(out@.push('.') + join(r, '.') =~= base + (t.push('.') + join(
                            r,
                            '.',
                        )));
                    }
                    if had {
                        assert(before.push('.') + join(seq![t] + r, '.') =~= base + join(
                            seq![t] + r,
                            '.',
                        ));
                    }
                }
            }
            any = true;
            pos = end;
        }
    }
}


/// Where the name of a query is read: at `start` when one is given, else
/// at the start of the question section.
pub open spec fn name_start(start: Option<usize>) -> int {
    match start {
        Some(p) => p as int,
        None => QUESTION_START as int,
    }
}

/// The host name asked for in `msg`, read from `start` (the start of the
/// question section when `None`), its labels joined with dots. `Err` when
/// the message ends too early, or when its pointers run round a cycle, on
/// which a reader without a depth limit would never return.
pub fn extract_host_from_dns_query(dns_query: &[u8], start: Option<usize>) -> (r: Result<
    String,
    (),
>)
    ensures
        r is Ok <==> walk(dns_query@, name_start(start), POINTER_DEPTH as nat) is Labels,
        r matches Ok(host) ==> Ok::<Seq<char>, NameError>(host@) == name_outcome(
            walk(dns_query@, name_start(start), POINTER_DEPTH as nat),
        ),
{
    let pos = match start {
        Some(p) => p,
        None => QUESTION_START,
    };
    match read_name(dns_query, pos) {
        Ok(host) => Ok(host),
        Err(_) => Err(()),
    }
}

/// One label as written in a question: its length in bytes of UTF-8,
/// cut to a byte, then each character cut to a byte.
pub open spec fn encode_label(label: Seq<char>) -> Seq<u8> {
    seq![vstd::utf8::encode_utf8(label).len() as u8] + label.map_values(|c: char| c as u8)
}

/// Labels written one after another.
pub open spec fn encode_labels(labels: Seq<Seq<char>>) -> Seq<u8>
    decreases labels.len(),
{
    if labels.len() == 0 {
        Seq::empty()
    } else {
        encode_label(labels[0]) + encode_labels(labels.drop_first())
    }
}

/// A host name written as DNS labels: each dot-separated piece as a
/// label, then the terminating zero length.
pub open spec fn label_bytes(host: Seq<char>) -> Seq<u8> {
    encode_labels(split(host, '.')).push(0)
}

proof fn lemma_encode_labels_push(labels: Seq<Seq<char>>, i: int)
    requires
        0 <= i < labels.len(),
    ensures
        encode_labels(labels.take(i + 1)) == encode_labels(labels.take(i)) + encode_label(
            labels[i],
        ),
    decreases i,
{
    if i == 0 {
        assert(labels.take(1).drop_first() =~= Seq::<Seq<char>>::empty());
        assert(encode_label(labels[0]) + Seq::<u8>::empty() =~= encode_label(labels[0]));
        assert(labels.take(0) =~= Seq::<Seq<char>>::empty());
    } else {
        let rest = labels.drop_first();
        lemma_encode_labels_push(rest, i - 1);
        assert(labels.take(i + 1).drop_first() =~= rest.take(i));
        assert(labels.take(i).drop_first() =~= rest.take(i - 1));
        assert(labels.take(i + 1)[0] == labels[0]);
        assert(labels.take(i)[0] == labels[0]);
        assert(rest[i - 1] == labels[i]);
        assert(encode_label(labels[0]) + (encode_labels(rest.take(i - 1)) + encode_label(
            labels[i],
        )) =~= (encode_label(labels[0]) + encode_labels(rest.take(i - 1))) + encode_label(
            labels[i],
        ));
    }
}

/// The host name written as DNS labels, as the question of a reply
/// repeats it.
pub fn query_hostname_to_label_bytes(query_hostname: &str) -> (r: Vec<u8>)
    ensures
        r@ == label_bytes(query_hostname@),
{
    let chars = crate::text::chars_of(query_hostname);
    let ranges = crate::text::split_ranges(&chars, '.');
    let ghost labels = split(chars@, '.');
    let mut out: Vec<u8> = Vec::new();
    let mut i: usize = 0;
    assert(labels.take(0) =~= Seq::<Seq<char>>::empty());
    while i < ranges.len()
        invariant
            chars@ == query_hostname@,
            labels == split(chars@, '.'),
            crate::text::ranges_mark(chars@, ranges@, labels, chars@.len() as int),
            i <= ranges@.len(),
            out@ == encode_labels(labels.take(i as int)),
        decreases ranges@.len() - i,
    {
        let (lo, hi) = ranges[i];
        assert(chars@.subrange(lo as int, hi as int) == labels[i as int]);
        let label = query_hostname.substring_char(lo, hi);
        let ghost before = out@;
        let byte_len: usize = label.as_bytes().len();
        out.push(byte_len as u8);
        let mut k = lo;
        while k < hi
            invariant
                lo <= k <= hi <= chars@.len(),
                out@ == before.push(byte_len as u8) + chars@.subrange(lo as int, k as int).map_values(
                    |c: char| c as u8,
                ),
            decreases hi - k,
        {
            out.push(chars[k] as u8);
            k = k + 1;
            assert(chars@.subrange(lo as int, k as int).map_values(|c: char| c as u8)
                =~= chars@.subrange(lo as int, k - 1 as int).map_values(|c: char| c as u8).push(
                chars@[k - 1] as u8));
        }
        proof {
            lemma_encode_labels_push(labels, i as int);
            assert(seq![byte_len as u8] =~= seq![vstd::utf8::encode_utf8(labels[i as int]).len() as u8]);
        }
        assert(out@ =~= before + encode_label(labels[i as int]));
        i = i + 1;
    }
    assert(labels.take(ranges@.len() as int) =~= labels);
    out.push(0);
    out
}

/// A label that reads back as written: one to 191 ASCII characters (a
/// longer one would read as a pointer).
pub open spec fn plain_label(label: Seq<char>) -> bool {
    1 <= label.len() <= 191 && vstd::utf8::is_ascii_chars(label)
}

/// A host name whose labels all read back as written, or the empty name.
pub open spec fn plain_host(host: Seq<char>) -> bool {
    host.len() == 0 || forall|i: int|
        0 <= i < split(host, '.').len() ==> plain_label(#[trigger] split(host, '.')[i])
}

proof fn lemma_plain_label_bytes(label: Seq<char>)
    requires
        plain_label(label),
    ensures
        encode_label(label)[0] as int == label.len(),
        encode_label(label).len() == label.len() + 1,
        label_text(encode_label(label).subrange(1, label.len() as int + 1)) == label,
{
    vstd::utf8::is_ascii_chars_encode_utf8(label);
    let n = label.len() as int;
    assert((n as u8) as int == n);
    let body = encode_label(label).subrange(1, n + 1);
    assert forall|j: int| 0 <= j < n implies #[trigger] label_text(body)[j] == label[j] by {
        let c = label[j];
        assert('\0' <= c <= '\u{7f}');
        assert(body[j] == c as u8);
        assert((c as u8) as char == c);
    }
    assert(label_text(body) =~= label);
}

proof fn lemma_read_labels(msg: Seq<u8>, pos: int, labels: Seq<Seq<char>>, d: nat)
    requires
        0 <= pos,
        pos + encode_labels(labels).len() + 1 <= msg.len(),
        msg.subrange(pos, pos + encode_labels(labels).len() as int + 1) == encode_labels(labels).push(0),
        forall|i: int| 0 <= i < labels.len() ==> plain_label(#[trigger] labels[i]),
    ensures
        walk(msg, pos, d) == Walk::Labels(labels),
    decreases labels.len(),
{
    let enc = encode_labels(labels);
    assert(msg[pos] == msg.subrange(pos, pos + enc.len() as int + 1)[0]);
    if labels.len() == 0 {
        assert(labels =~= Seq::<Seq<char>>::empty());
    } else {
        let first = labels[0];
        let rest = labels.drop_first();
        let n = first.len() as int;
        lemma_plain_label_bytes(first);
        assert forall|i: int| 0 <= i < rest.len() implies plain_label(#[trigger] rest[i]) by {
            assert(rest[i] == labels[i + 1]);
        }
        let head = encode_label(first);
        assert(enc == head + encode_labels(rest));
        assert(msg[pos] == head[0]);
        assert(msg.subrange(pos + 1, pos + 1 + n) =~= head.subrange(1, n + 1)) by {
            assert forall|j: int| 0 <= j < n implies #[trigger] msg.subrange(pos + 1, pos + 1 + n)[j]
                == head.subrange(1, n + 1)[j] by {
                assert(msg[pos + 1 + j] == msg.subrange(pos, pos + enc.len() as int + 1)[1 + j]);
            }
        }
        let next = pos + n + 1;
        assert(msg.subrange(next, next + encode_labels(rest).len() as int + 1) =~= encode_labels(
            rest,
        ).push(0)) by {
            assert forall|j: int| 0 <= j < encode_labels(rest).len() + 1 implies #[trigger] msg.subrange(
                next,
                next + encode_labels(rest).len() as int + 1,
            )[j] == encode_labels(rest).push(0)[j] by {
                assert(msg[next + j] == msg.subrange(pos, pos + enc.len() as int + 1)[n + 1 + j]);
            }
        }
        lemma_read_labels(msg, next, rest, d);
        assert(seq![first] + rest =~= labels);
    }
}

/// Law: a host name written as labels after a message header, whatever
/// follows it (the question's type and class), reads back as the same host
/// name, at any pointer depth, whenever its labels read back as written.
pub proof fn lemma_host_round_trip(header: Seq<u8>, host: Seq<char>, tail: Seq<u8>, d: nat)
    requires
        header.len() == QUESTION_START,
        plain_host(host),
    ensures
        name_outcome(walk(header + label_bytes(host) + tail, QUESTION_START as int, d)) == Ok::<
            Seq<char>,
            NameError,
        >(host),
{
    let msg = header + label_bytes(host) + tail;
    let labels = split(host, '.');
    crate::text::lemma_join_split(host, '.');
    if host.len() == 0 {
        assert(labels == seq![Seq::<char>::empty()]);
        assert(encode_labels(labels.drop_first()) =~= Seq::<u8>::empty());
        assert(msg[12] == 0u8);
        assert(walk(msg, 12, d) == Walk::Labels(Seq::empty()));
    } else {
        let enc = encode_labels(labels);
        assert(msg.subrange(12, 12 + enc.len() as int + 1) =~= enc.push(0));
        lemma_read_labels(msg, 12, labels, d);
    }
}

/// Law: a question name written as plain labels, one or more, none with a
/// dot, reads as their text joined with dots, and that text written back
/// as labels gives the same bytes, up to and including the terminator.
pub proof fn lemma_question_re_encoded(msg: Seq<u8>, labels: Seq<Seq<char>>, d: nat)
    requires
        labels.len() >= 1,
        forall|i: int|
            0 <= i < labels.len() ==> plain_label(#[trigger] labels[i]) && !labels[i].contains('.'),
        QUESTION_START + encode_labels(labels).len() + 1 <= msg.len(),
        msg.subrange(
            QUESTION_START as int,
            QUESTION_START + encode_labels(labels).len() as int + 1,
        ) == encode_labels(labels).push(0),
    ensures
        walk(msg, QUESTION_START as int, d) == Walk::Labels(labels),
        label_bytes(join(labels, '.')) == msg.subrange(
            QUESTION_START as int,
            QUESTION_START + encode_labels(labels).len() as int + 1,
        ),
{
    lemma_read_labels(msg, QUESTION_START as int, labels, d);
    assert forall|i: int| 0 <= i < labels.len() implies !(#[trigger] labels[i]).contains('.') by {}
    crate::text::lemma_split_join(labels, '.');
}

} // verus!
