//! Replaying a log.
//!
//! A segment's bytes parse into the sequence of commands they hold;
//! replaying those commands in order, starting from an empty store,
//! gives the store's logical contents.  The laws at the end say that a
//! key's replayed value is exactly that of its most recent `Put` not
//! followed by a `Remove`.

use crate::codec::CommandV;
use crate::codec::SpecDecoded;
use crate::codec::encodable;
use crate::codec::lemma_decode_append;
use crate::codec::lemma_decode_bounds;
use crate::codec::lemma_decode_encode;
use crate::codec::spec_decode;
use crate::codec::spec_encode;
use vstd::prelude::*;

verus! {

/// How the scan of one segment's bytes ended.
pub enum ParseStatus {
    /// The data ends exactly at a record boundary.
    Complete,
    /// The data ends inside a record, as after a crash mid-append.
    Truncated,
    /// The data holds bytes that are no prefix of any record.
    Corrupt,
}

/// All commands of `data` from `pos` on, with how the scan ended.
pub open spec fn spec_parse_from(data: Seq<u8>, pos: int) -> (Seq<CommandV>, ParseStatus)
    decreases data.len() - pos,
        when 0 <= pos <= data.len()
{
    match spec_decode(data, pos) {
        SpecDecoded::End => (seq![], ParseStatus::Complete),
        SpecDecoded::Truncated => (seq![], ParseStatus::Truncated),
        SpecDecoded::Corrupt => (seq![], ParseStatus::Corrupt),
        SpecDecoded::Record { cmd, end } => if pos < end <= data.len() {
            let rest = spec_parse_from(data, end);
            (seq![cmd] + rest.0, rest.1)
        } else {
            // Records always advance within bounds, so this arm is never taken.
            (seq![], ParseStatus::Corrupt)
        },
    }
}

/// All commands of a segment, with how the scan ended.
pub open spec fn spec_parse(data: Seq<u8>) -> (Seq<CommandV>, ParseStatus) {
    spec_parse_from(data, 0)
}

/// The store contents after one command.
pub open spec fn apply_command(m: Map<Seq<char>, Seq<char>>, c: CommandV) -> Map<
    Seq<char>,
    Seq<char>,
> {
    match c {
        CommandV::Put { key, value } => m.insert(key, value),
        CommandV::Remove { key } => m.remove(key),
    }
}

/// The store contents after a sequence of commands, applied in order.
pub open spec fn replay(cmds: Seq<CommandV>, m: Map<Seq<char>, Seq<char>>) -> Map<
    Seq<char>,
    Seq<char>,
>
    decreases cmds.len(),
{
    if cmds.len() == 0 {
        m
    } else {
        replay(cmds.drop_first(), apply_command(m, cmds.first()))
    }
}

/// Replaying one more command applies it to the replayed store.
pub proof fn lemma_replay_push(cmds: Seq<CommandV>, m: Map<Seq<char>, Seq<char>>, c: CommandV)
    ensures
        replay(cmds.push(c), m) == apply_command(replay(cmds, m), c),
    decreases cmds.len(),
{
    if cmds.len() == 0 {
        assert(cmds.push(c).drop_first() =~= Seq::<CommandV>::empty());
        assert(cmds.push(c).first() == c);
        assert(replay(cmds.push(c), m) == replay(Seq::<CommandV>::empty(), apply_command(m, c)));
        assert(replay(Seq::<CommandV>::empty(), apply_command(m, c)) == apply_command(m, c));
        assert(replay(cmds, m) == m);
    } else {
        assert(cmds.push(c).drop_first() =~= cmds.drop_first().push(c));
        assert(cmds.push(c).first() == cmds.first());
        assert(replay(cmds.push(c), m) == replay(
            cmds.drop_first().push(c),
            apply_command(m, cmds.first()),
        ));
        lemma_replay_push(cmds.drop_first(), apply_command(m, cmds.first()), c);
        assert(replay(cmds, m) == replay(cmds.drop_first(), apply_command(m, cmds.first())));
    }
}

/// The bytes a command turns into garbage under contents `m`: the
/// encoded `Put` record holding the key's current value, when the key
/// is live; nothing otherwise.
pub open spec fn superseded_len(m: Map<Seq<char>, Seq<char>>, c: CommandV) -> int {
    let k = match c {
        CommandV::Put { key, value } => key,
        CommandV::Remove { key } => key,
    };
    if m.contains_key(k) {
        spec_encode(CommandV::Put { key: k, value: m[k] }).len() as int
    } else {
        0
    }
}

/// The bytes superseded or tombstoned over the course of replaying
/// `cmds` on top of `m`: what the garbage counter accounts for.
pub open spec fn replay_garbage(cmds: Seq<CommandV>, m: Map<Seq<char>, Seq<char>>) -> int
    decreases cmds.len(),
{
    if cmds.len() == 0 {
        0
    } else {
        superseded_len(m, cmds.first()) + replay_garbage(
            cmds.drop_first(),
            apply_command(m, cmds.first()),
        )
    }
}

/// One more command adds exactly what it supersedes in the replayed
/// store.
pub proof fn lemma_replay_garbage_push(cmds: Seq<CommandV>, m: Map<Seq<char>, Seq<char>>, c: CommandV)
    ensures
        replay_garbage(cmds.push(c), m) == replay_garbage(cmds, m) + superseded_len(
            replay(cmds, m),
            c,
        ),
    decreases cmds.len(),
{
    if cmds.len() == 0 {
        assert(cmds.push(c).drop_first() =~= Seq::<CommandV>::empty());
        assert(cmds.push(c).first() == c);
        assert(replay_garbage(cmds.push(c), m) == superseded_len(m, c) + replay_garbage(
            Seq::<CommandV>::empty(),
            apply_command(m, c),
        ));
    } else {
        assert(cmds.push(c).drop_first() =~= cmds.drop_first().push(c));
        assert(cmds.push(c).first() == cmds.first());
        assert(replay_garbage(cmds.push(c), m) == superseded_len(m, cmds.first()) + replay_garbage(
            cmds.drop_first().push(c),
            apply_command(m, cmds.first()),
        ));
        lemma_replay_garbage_push(cmds.drop_first(), apply_command(m, cmds.first()), c);
        assert(replay(cmds, m) == replay(cmds.drop_first(), apply_command(m, cmds.first())));
        assert(replay_garbage(cmds, m) == superseded_len(m, cmds.first()) + replay_garbage(
            cmds.drop_first(),
            apply_command(m, cmds.first()),
        ));
    }
}

/// No replay turns a negative number of bytes into garbage.
pub proof fn lemma_replay_garbage_nonneg(cmds: Seq<CommandV>, m: Map<Seq<char>, Seq<char>>)
    ensures
        replay_garbage(cmds, m) >= 0,
    decreases cmds.len(),
{
    if cmds.len() > 0 {
        lemma_replay_garbage_nonneg(cmds.drop_first(), apply_command(m, cmds.first()));
    }
}

/// Whether a command reads or writes the key `k`.
pub open spec fn touches(c: CommandV, k: Seq<char>) -> bool {
    match c {
        CommandV::Put { key, value } => key == k,
        CommandV::Remove { key } => key == k,
    }
}

/// The value of `k` after `cmds`: that of the most recent `Put` to `k`
/// not followed by a `Remove` of `k`, if there is one.
pub open spec fn final_value(cmds: Seq<CommandV>, k: Seq<char>) -> Option<Seq<char>>
    decreases cmds.len(),
{
    if cmds.len() == 0 {
        None
    } else {
        match cmds.last() {
            CommandV::Put { key, value } => if key == k {
                Some(value)
            } else {
                final_value(cmds.drop_last(), k)
            },
            CommandV::Remove { key } => if key == k {
                None
            } else {
                final_value(cmds.drop_last(), k)
            },
        }
    }
}

/// Replay gives `k` the value of its most recent surviving `Put`; a key
/// whose history ends in a `Remove` is absent; an untouched key keeps
/// whatever the initial store gave it.
pub proof fn lemma_replay_final_value(cmds: Seq<CommandV>, m: Map<Seq<char>, Seq<char>>, k: Seq<char>)
    ensures
        final_value(cmds, k) matches Some(v) ==> replay(cmds, m).contains_key(k) && replay(cmds, m)[k]
            == v,
        final_value(cmds, k) is None && (exists|i: int|
            0 <= i < cmds.len() && touches(cmds[i], k)) ==> !replay(cmds, m).contains_key(k),
        !(exists|i: int| 0 <= i < cmds.len() && touches(cmds[i], k)) ==> (replay(
            cmds,
            m,
        ).contains_key(k) == m.contains_key(k) && (m.contains_key(k) ==> replay(cmds, m)[k] == m[k])
            && final_value(cmds, k) is None),
    decreases cmds.len(),
{
    if cmds.len() == 0 {
    } else {
        let init = cmds.drop_last();
        let c = cmds.last();
        assert(init.push(c) =~= cmds);
        lemma_replay_push(init, m, c);
        lemma_replay_final_value(init, m, k);
        if !touches(c, k) {
            assert forall|i: int| 0 <= i < init.len() && touches(init[i], k) implies exists|j: int|
                0 <= j < cmds.len() && touches(cmds[j], k) by {
                assert(touches(cmds[i], k));
            }
            if exists|j: int| 0 <= j < cmds.len() && touches(cmds[j], k) {
                let j = choose|j: int| 0 <= j < cmds.len() && touches(cmds[j], k);
                assert(j < init.len() && touches(init[j], k));
            }
        } else {
            assert(touches(cmds[cmds.len() - 1], k));
        }
    }
}

/// A key maps to `v` after replaying a log from an empty store exactly
/// when the log's most recent `Put` of that key wrote `v` and no later
/// `Remove` of it follows.
pub proof fn lemma_last_write_wins(cmds: Seq<CommandV>, k: Seq<char>)
    ensures
        replay(cmds, Map::empty()).contains_key(k) <==> final_value(cmds, k) is Some,
        final_value(cmds, k) matches Some(v) ==> replay(cmds, Map::empty())[k] == v,
{
    lemma_replay_final_value(cmds, Map::empty(), k);
    if replay(cmds, Map::empty()).contains_key(k) && final_value(cmds, k) is None {
        if !(exists|i: int| 0 <= i < cmds.len() && touches(cmds[i], k)) {
            assert(!Map::<Seq<char>, Seq<char>>::empty().contains_key(k));
        }
    }
}

/// Appending one whole record to a cleanly parsed log extends the
/// command sequence by exactly that command and keeps the log clean.
pub proof fn lemma_parse_from_append(data: Seq<u8>, pos: int, c: CommandV)
    requires
        0 <= pos <= data.len(),
        spec_parse_from(data, pos).1 is Complete,
        encodable(c),
    ensures
        spec_parse_from(data + spec_encode(c), pos).0 == spec_parse_from(data, pos).0.push(c),
        spec_parse_from(data + spec_encode(c), pos).1 is Complete,
    decreases data.len() - pos,
{
    let whole = data + spec_encode(c);
    match spec_decode(data, pos) {
        SpecDecoded::End => {
            assert(pos == data.len());
            assert(whole.len() == data.len() + spec_encode(c).len());
            assert(whole.subrange(pos, pos + spec_encode(c).len() as int) =~= spec_encode(c));
            lemma_decode_encode(whole, pos, c);
            let end = pos + spec_encode(c).len() as int;
            assert(spec_decode(whole, pos) == (SpecDecoded::Record { cmd: c, end }));
            assert(spec_decode(whole, end) is End);
            assert(spec_parse_from(whole, end).0 == Seq::<CommandV>::empty());
            assert(spec_parse_from(whole, pos).0 == seq![c] + spec_parse_from(whole, end).0);
            assert(spec_parse_from(whole, pos).0 =~= spec_parse_from(data, pos).0.push(c));
        },
        SpecDecoded::Record { cmd, end } => {
            lemma_decode_bounds(data, pos);
            assert(pos < end <= data.len());
            assert(spec_parse_from(data, pos).0 == seq![cmd] + spec_parse_from(data, end).0);
            assert(spec_parse_from(data, pos).1 == spec_parse_from(data, end).1);
            lemma_decode_append(data, spec_encode(c), pos);
            assert(spec_decode(whole, pos) == (SpecDecoded::Record { cmd, end }));
            lemma_parse_from_append(data, end, c);
            assert(data.len() <= whole.len());
            assert(spec_parse_from(whole, pos).0 == seq![cmd] + spec_parse_from(whole, end).0);
            assert(spec_parse_from(whole, pos).1 == spec_parse_from(whole, end).1);
            assert(spec_parse_from(whole, pos).0 =~= spec_parse_from(data, pos).0.push(c));
        },
        SpecDecoded::Truncated => {
            assert(false);
        },
        SpecDecoded::Corrupt => {
            assert(false);
        },
    }
}

/// The same, for a whole segment.
pub proof fn lemma_parse_append(data: Seq<u8>, c: CommandV)
    requires
        spec_parse(data).1 is Complete,
        encodable(c),
    ensures
        spec_parse(data + spec_encode(c)).0 == spec_parse(data).0.push(c),
        spec_parse(data + spec_encode(c)).1 is Complete,
{
    lemma_parse_from_append(data, 0, c);
}

/// An empty segment parses to no commands, cleanly.
pub proof fn lemma_parse_empty()
    ensures
        spec_parse(Seq::<u8>::empty()).0 == Seq::<CommandV>::empty(),
        spec_parse(Seq::<u8>::empty()).1 is Complete,
{
}

} // verus!
