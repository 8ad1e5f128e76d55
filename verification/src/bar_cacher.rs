use vstd::prelude::*;
use crate::midi_types::{MetaEvent, MetaEventType};

verus! {

/// Scanning from `i` for the time signature in force at `start`: the last
/// time signature at or before `start`, stopping at the first one after it.
pub open spec fn ts_in_force(metas: Seq<MetaEvent>, i: int, start: u32, cur: Option<int>) -> Option<int>
    decreases metas.len() - i,
{
    if i < 0 || i >= metas.len() {
        cur
    } else if metas[i].event_type == MetaEventType::TimeSignature {
        if metas[i].tick <= start {
            ts_in_force(metas, i + 1, start, Some(i))
        } else {
            cur
        }
    } else {
        ts_in_force(metas, i + 1, start, cur)
    }
}

/// The first time signature after `start`, from `i` on.
pub open spec fn next_ts_after(metas: Seq<MetaEvent>, i: int, start: u32) -> Option<int>
    decreases metas.len() - i,
{
    if i < 0 || i >= metas.len() {
        None
    } else if metas[i].event_type == MetaEventType::TimeSignature && metas[i].tick > start {
        Some(i)
    } else {
        next_ts_after(metas, i + 1, start)
    }
}

/// The length of the bar that starts at `start`: a bar of the time
/// signature in force (numerator beats of a 2^-denominator note, 4/4 when
/// there is none), cut short by the next time signature. `None` where the
/// computation fails: a time signature with less than two bytes, a
/// denominator of 32 or more, or a bar end past the largest tick.
pub open spec fn bar_length_spec(metas: Seq<MetaEvent>, search_idx: int, start: u32, ppq: u16) -> Option<u32> {
    let cur = ts_in_force(metas, search_idx, start, None);
    let ok = match cur {
        Some(i) => metas[i].data@.len() >= 2 && metas[i].data@[1] < 32,
        None => true,
    };
    let (num, den) = match cur {
        Some(i) => (metas[i].data@[0] as int, metas[i].data@[1] as int),
        None => (4int, 2int),
    };
    let nominal = (num * (ppq as int * 4)) / vstd::arithmetic::power2::pow2(den as nat) as int;
    if !ok || start as int + nominal > u32::MAX {
        None
    } else {
        match next_ts_after(metas, search_idx, start) {
            Some(j) => if (metas[j].tick as int) < start + nominal {
                Some((metas[j].tick - start) as u32)
            } else {
                Some(nominal as u32)
            },
            None => Some(nominal as u32),
        }
    }
}

/// The bars from the `k`th on, up to bar `target`, each starting where the
/// one before ends. `None` where a bar length cannot be computed or a bar
/// end passes the largest tick.
pub open spec fn bars_until(cache: Seq<(u32, u32)>, metas: Seq<MetaEvent>, search_idx: int, ppq: u16, target: int) -> Option<Seq<(u32, u32)>>
    decreases target + 1 - cache.len(),
{
    if cache.len() > target {
        Some(cache)
    } else {
        let start: int = if cache.len() == 0 { 0 } else { cache.last().0 as int + cache.last().1 as int };
        if start > u32::MAX {
            None
        } else {
            match bar_length_spec(metas, search_idx, start as u32, ppq) {
                Some(l) => bars_until(cache.push((start as u32, l)), metas, search_idx, ppq, target),
                None => None,
            }
        }
    }
}

/// Bar positions and lengths, worked out on demand and kept.
pub struct BarCacher {
    bar_cache: Vec<(u32, u32)>,
    last_ts_index: usize,
}

impl BarCacher {
    /// The bars worked out so far, as (start, length).
    pub closed spec fn bars(&self) -> Seq<(u32, u32)> {
        self.bar_cache@
    }

    /// Where the search for time signatures starts.
    pub closed spec fn search_index(&self) -> int {
        self.last_ts_index as int
    }

    pub fn new() -> (r: Self)
        ensures
            r.bars().len() == 0,
            r.search_index() == 0,
    {
        BarCacher { bar_cache: Vec::new(), last_ts_index: 0 }
    }

    /// Forgets every bar.
    pub fn clear_cache(&mut self)
        ensures
            final(self).bars().len() == 0,
            final(self).search_index() == old(self).search_index(),
    {
        self.bar_cache.clear();
    }

    /// The (start, length) of bar `bar_num`, working out the bars up to it
    /// where needed.
    pub fn get_bar_interval(&mut self, bar_num: usize, metas: &Vec<MetaEvent>, ppq: u16) -> (r: (u32, u32))
        requires
            old(self).search_index() <= metas@.len(),
            bars_until(old(self).bars(), metas@, old(self).search_index(), ppq, bar_num as int) is Some,
        ensures
            final(self).bars() == bars_until(old(self).bars(), metas@, old(self).search_index(), ppq, bar_num as int)->0,
            r == final(self).bars()[bar_num as int],
            final(self).search_index() == old(self).search_index(),
    {
        if bar_num < self.bar_cache.len() {
            return self.bar_cache[bar_num];
        }
        self.validate_bars_until(bar_num, metas, ppq);
        self.bar_cache[bar_num]
    }

    fn validate_bars_until(&mut self, target_bar: usize, metas: &Vec<MetaEvent>, ppq: u16)
        requires
            old(self).search_index() <= metas@.len(),
            bars_until(old(self).bars(), metas@, old(self).search_index(), ppq, target_bar as int) is Some,
        ensures
            final(self).bars() == bars_until(old(self).bars(), metas@, old(self).search_index(), ppq, target_bar as int)->0,
            final(self).bars().len() > target_bar,
            final(self).search_index() == old(self).search_index(),
    {
        let ghost goal = bars_until(self.bar_cache@, metas@, self.search_index(), ppq, target_bar as int);
        while self.bar_cache.len() <= target_bar
            invariant
                self.search_index() == old(self).search_index(),
                self.search_index() <= metas@.len(),
                bars_until(self.bar_cache@, metas@, self.search_index(), ppq, target_bar as int) == goal,
                goal is Some,
            decreases target_bar + 1 - self.bar_cache@.len(),
        {
            let n = self.bar_cache.len();
            let start_tick: u32 = if n == 0 {
                0
            } else {
                let (s, l) = self.bar_cache[n - 1];
                s + l
            };
            let (length, new_idx) = self.compute_bar_length_at(start_tick, metas, self.last_ts_index, ppq);
            self.last_ts_index = new_idx;
            self.bar_cache.push((start_tick, length));
        }
        proof {
            lemma_bars_until_len(self.bar_cache@, metas@, self.search_index(), ppq, target_bar as int);
        }
    }

    /// The length of the bar that starts at `start_tick`, and where the next
    /// search for time signatures starts (where this one started).
    pub fn compute_bar_length_at(&self, start_tick: u32, metas: &Vec<MetaEvent>, search_idx: usize, ppq: u16) -> (r: (u32, usize))
        requires
            search_idx <= metas@.len(),
            bar_length_spec(metas@, search_idx as int, start_tick, ppq) is Some,
        ensures
            r.0 == bar_length_spec(metas@, search_idx as int, start_tick, ppq)->0,
            r.1 == search_idx,
    {
        let mut current_ts: Option<usize> = None;
        let mut i = search_idx;
        let mut done = false;
        while i < metas.len() && !done
            invariant
                search_idx <= i <= metas@.len(),
                ts_in_force(metas@, i as int, start_tick, match current_ts {
                    Some(c) => Some(c as int),
                    None => None,
                }) == ts_in_force(metas@, search_idx as int, start_tick, None),
                current_ts matches Some(c) ==> c < metas@.len(),
                done ==> i < metas@.len() && metas@[i as int].event_type == MetaEventType::TimeSignature
                    && metas@[i as int].tick > start_tick,
            decreases metas@.len() - i, if done { 0int } else { 1int },
        {
            if metas[i].event_type == MetaEventType::TimeSignature {
                if metas[i].tick <= start_tick {
                    current_ts = Some(i);
                } else {
                    done = true;
                }
            }
            if !done {
                i += 1;
            }
        }
        assert(ts_in_force(metas@, i as int, start_tick, match current_ts {
            Some(c) => Some(c as int),
            None => None,
        }) == match current_ts {
            Some(c) => Some(c as int),
            None => None,
        });
        let ghost cur = ts_in_force(metas@, search_idx as int, start_tick, None);
        let (num, den): (u32, u32) = match current_ts {
            Some(c) => (metas[c].data[0] as u32, metas[c].data[1] as u32),
            None => (4, 2),
        };
        let ticks_per_beat: u32 = (ppq as u32) << 2;
        assert(ticks_per_beat == ppq as int * 4) by (bit_vector)
            requires
                ticks_per_beat == (ppq as u32) << 2,
                ppq <= 0xffff,
        ;
        assert(num * ticks_per_beat <= 255 * 262140) by (nonlinear_arith)
            requires
                num <= 255,
                ticks_per_beat <= 262140,
        ;
        let whole: u32 = num * ticks_per_beat;
        let nominal: u32 = whole >> den;
        proof {
            vstd::bits::lemma_u32_shr_is_div(whole, den);
        }
        let mut j = search_idx;
        let mut next: Option<u32> = None;
        while j < metas.len()
            invariant_except_break
                next is None,
            invariant
                search_idx <= j <= metas@.len(),
                next_ts_after(metas@, j as int, start_tick) == next_ts_after(metas@, search_idx as int, start_tick),
            ensures
                match next {
                    Some(t) => t > start_tick && (next_ts_after(metas@, search_idx as int, start_tick) matches Some(k) && metas@[k].tick == t),
                    None => next_ts_after(metas@, search_idx as int, start_tick) is None,
                },
            decreases metas@.len() - j,
        {
            if metas[j].event_type == MetaEventType::TimeSignature && metas[j].tick > start_tick {
                next = Some(metas[j].tick);
                break;
            }
            j += 1;
        }
        let length = match next {
            Some(next_tick) => if next_tick < start_tick + nominal {
                next_tick - start_tick
            } else {
                nominal
            },
            None => nominal,
        };
        (length, search_idx)
    }
}

proof fn lemma_bars_until_len(cache: Seq<(u32, u32)>, metas: Seq<MetaEvent>, search_idx: int, ppq: u16, target: int)
    requires
        bars_until(cache, metas, search_idx, ppq, target) is Some,
    ensures
        bars_until(cache, metas, search_idx, ppq, target)->0.len() > target,
    decreases target + 1 - cache.len(),
{
    if cache.len() <= target {
        let start: int = if cache.len() == 0 { 0 } else { cache.last().0 as int + cache.last().1 as int };
        let l = bar_length_spec(metas, search_idx, start as u32, ppq)->0;
        lemma_bars_until_len(cache.push((start as u32, l)), metas, search_idx, ppq, target);
    }
}

} // verus!
