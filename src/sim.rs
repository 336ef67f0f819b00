//! Replaying a trace: each data access probes the cache once, a modify twice.
use vstd::prelude::*;

use crate::cache::{check_cache, is_eviction, is_hit, lemma_reaccess_hits, set_after, set_of, Cache};
use crate::decode::{decode, preprocess_line, LineError};

verus! {

/// The cache's contents and the three counters, at some point of a replay.
pub ghost struct SimState {
    pub cache: Map<Seq<char>, Seq<Seq<char>>>,
    pub hits: int,
    pub misses: int,
    pub evictions: int,
}

/// The state before any access: an empty cache and zero counts.
pub open spec fn fresh_state() -> SimState {
    SimState { cache: Map::empty(), hits: 0, misses: 0, evictions: 0 }
}

/// The state of an executable cache and counters.
pub open spec fn state_of(cache: Cache, hits: i32, misses: i32, evictions: i32) -> SimState {
    SimState { cache: cache@, hits: hits as int, misses: misses as int, evictions: evictions as int }
}

/// The state after one access to `tag` in the set with index `set_index`.
pub open spec fn access(st: SimState, tag: Seq<char>, set_index: Seq<char>, e: int) -> SimState {
    let list = set_of(st.cache, set_index);
    SimState {
        cache: st.cache.insert(set_index, set_after(list, tag, e)),
        hits: st.hits + if is_hit(list, tag) { 1int } else { 0int },
        misses: st.misses + if is_hit(list, tag) { 0int } else { 1int },
        evictions: st.evictions + if is_eviction(list, tag, e) { 1int } else { 0int },
    }
}

/// The state after one decoded line: a load or a store is one access, a
/// modify is two accesses to the same address, anything else none.
pub open spec fn line_step(st: SimState, code: Seq<char>, tag: Seq<char>, set_index: Seq<char>, e: int) -> SimState {
    if code == seq!['M'] {
        access(access(st, tag, set_index, e), tag, set_index, e)
    } else if code == seq!['L'] || code == seq!['S'] {
        access(st, tag, set_index, e)
    } else {
        st
    }
}

/// The state after replaying `lines` from a fresh state, or the first line's
/// error.
pub open spec fn run(lines: Seq<Seq<char>>, s: i32, b: i32, e: int) -> Result<SimState, LineError>
    decreases lines.len(),
{
    if lines.len() == 0 {
        Ok(fresh_state())
    } else {
        match run(lines.drop_last(), s, b, e) {
            Err(err) => Err(err),
            Ok(st) => match decode(lines.last(), s, b) {
                Err(err) => Err(err),
                Ok((code, tag, set_index)) => Ok(line_step(st, code, tag, set_index, e)),
            },
        }
    }
}

/// The only character of `code`, if it has exactly one.
fn single_char(code: &String) -> (r: Option<char>)
    ensures
        r == (if code@.len() == 1 { Some(code@[0]) } else { None::<char> }),
{
    let text = code.as_str();
    if text.unicode_len() == 1 {
        Some(text.get_char(0))
    } else {
        None
    }
}

/// Applies one decoded line to the cache and the counters: `L` and `S` probe
/// the cache once, `M` twice with the same tag and set index, and any other
/// code (such as the empty code of an instruction fetch) not at all.
pub fn process_line(
    cache: &mut Cache,
    hits: &mut i32,
    misses: &mut i32,
    evictions: &mut i32,
    code: &String,
    tag: &String,
    set_index: &String,
    e: &i32,
)
    requires
        old(cache).wf(),
        *e >= 1,
        *old(hits) < i32::MAX - 1,
        *old(misses) < i32::MAX - 1,
        *old(evictions) < i32::MAX - 1,
    ensures
        final(cache).wf(),
        state_of(*final(cache), *final(hits), *final(misses), *final(evictions)) == line_step(
            state_of(*old(cache), *old(hits), *old(misses), *old(evictions)),
            code@,
            tag@,
            set_index@,
            *e as int,
        ),
        old(cache).within(*e as int) ==> final(cache).within(*e as int),
{
    match single_char(code) {
        Some('M') => {
            check_cache(cache, hits, misses, evictions, tag, set_index, e);
            check_cache(cache, hits, misses, evictions, tag, set_index, e);
        },
        Some('L') | Some('S') => {
            check_cache(cache, hits, misses, evictions, tag, set_index, e);
        },
        _ => {},
    }
    proof {
        if code@.len() == 1 {
            assert(code@ =~= seq![code@[0]]);
        }
    }
}

/// A modify line makes two accesses: the first a hit or a miss, the second
/// always a hit that evicts nothing; so it adds two to hits and misses
/// together, at least one hit, and at most one eviction.
pub proof fn lemma_modify_second_access_hits(st: SimState, tag: Seq<char>, set_index: Seq<char>, e: int)
    requires
        e >= 1,
    ensures
        is_hit(set_of(access(st, tag, set_index, e).cache, set_index), tag),
        !is_eviction(set_of(access(st, tag, set_index, e).cache, set_index), tag, e),
        line_step(st, seq!['M'], tag, set_index, e).hits + line_step(st, seq!['M'], tag, set_index, e).misses
            == st.hits + st.misses + 2,
        line_step(st, seq!['M'], tag, set_index, e).hits >= st.hits + 1,
        line_step(st, seq!['M'], tag, set_index, e).evictions
            == access(st, tag, set_index, e).evictions,
        line_step(st, seq!['M'], tag, set_index, e).evictions <= st.evictions + 1,
{
    lemma_reaccess_hits(set_of(st.cache, set_index), tag, e);
}

/// Replaying the same trace twice, each time from a fresh state, gives the
/// same outcome: the same counts, or the same error.
pub proof fn lemma_replay_deterministic(lines1: Seq<Seq<char>>, lines2: Seq<Seq<char>>, s: i32, b: i32, e: int)
    requires
        lines1 == lines2,
    ensures
        run(lines1, s, b, e) == run(lines2, s, b, e),
{
}

/// The strings of the trace lines, in order.
pub open spec fn lines_view(lines: Vec<String>) -> Seq<Seq<char>> {
    lines@.map_values(|l: String| l@)
}

proof fn lemma_run_error_persists(lines: Seq<Seq<char>>, i: int, s: i32, b: i32, e: int)
    requires
        0 <= i <= lines.len(),
        run(lines.take(i), s, b, e) is Err,
    ensures
        run(lines, s, b, e) == run(lines.take(i), s, b, e),
    decreases lines.len(),
{
    if i == lines.len() {
        assert(lines.take(i) =~= lines);
    } else {
        assert(lines.drop_last().take(i) =~= lines.take(i));
        lemma_run_error_persists(lines.drop_last(), i, s, b, e);
    }
}

/// Replays the trace `lines` from an empty cache, with `s` set-index bits,
/// `b` block-offset bits and `e` tags per set, and returns the numbers of
/// hits, misses and evictions, or the error of the first line that cannot be
/// decoded.
pub fn simulate(lines: &Vec<String>, s: i32, b: i32, e: i32) -> (r: Result<(i32, i32, i32), LineError>)
    requires
        s >= 1,
        b >= 1,
        e >= 1,
        lines@.len() <= 1_000_000_000,
    ensures
        match r {
            Ok((hits, misses, evictions)) => {
                &&& run(lines_view(*lines), s, b, e as int) is Ok
                &&& run(lines_view(*lines), s, b, e as int)->Ok_0.hits == hits
                &&& run(lines_view(*lines), s, b, e as int)->Ok_0.misses == misses
                &&& run(lines_view(*lines), s, b, e as int)->Ok_0.evictions == evictions
            },
            Err(err) => run(lines_view(*lines), s, b, e as int) == Err::<SimState, LineError>(err),
        },
{
    let ghost all = lines_view(*lines);
    let mut cache = Cache::new();
    let mut hits: i32 = 0;
    let mut misses: i32 = 0;
    let mut evictions: i32 = 0;
    let mut i: usize = 0;
    proof {
        assert(all.take(0) =~= Seq::<Seq<char>>::empty());
        assert(state_of(cache, hits, misses, evictions) =~= fresh_state());
    }
    while i < lines.len()
        invariant
            all == lines_view(*lines),
            s >= 1,
            b >= 1,
            e >= 1,
            lines@.len() <= 1_000_000_000,
            i <= lines@.len(),
            cache.wf(),
            run(all.take(i as int), s, b, e as int) == Ok::<SimState, LineError>(state_of(cache, hits, misses, evictions)),
            0 <= hits,
            0 <= misses,
            0 <= evictions <= misses,
            hits + misses <= 2 * i,
        decreases lines@.len() - i,
    {
        proof {
            assert(all.take(i + 1).drop_last() =~= all.take(i as int));
            assert(all.take(i + 1).last() == lines@[i as int]@);
        }
        match preprocess_line(&lines[i], &s, &b) {
            Err(err) => {
                proof {
                    lemma_run_error_persists(all, i + 1, s, b, e as int);
                }
                return Err(err);
            },
            Ok((code, tag, set_index)) => {
                process_line(&mut cache, &mut hits, &mut misses, &mut evictions, &code, &tag, &set_index, &e);
            },
        }
        i = i + 1;
    }
    proof {
        assert(all.take(i as int) =~= all);
    }
    Ok((hits, misses, evictions))
}

} // verus!
