//! The table of triggers: phrases in normal form, each with its cooldown.
//!
//! Times are nanoseconds of one monotonic clock.
use vstd::prelude::*;

verus! {

/// Nanoseconds in a second.
pub const SECOND: u64 = 1_000_000_000;

/// A phrase's trigger. `C` is the cooldown as its owner gave it.
#[derive(Debug)]
pub struct Trigger<C> {
    /// The cooldown, as it is reported back.
    pub cooldown: C,
    /// The cooldown in nanoseconds; none where no time is long enough.
    pub wait: Option<u64>,
    /// When the trigger last fired.
    pub last_fire: u64,
}

/// How long before `now` the time `earlier` lies; nothing where it lies after.
pub open spec fn elapsed(earlier: u64, now: u64) -> int {
    if now >= earlier {
        now - earlier
    } else {
        0
    }
}

/// Whether a trigger's cooldown is over.
pub open spec fn ready<C>(t: Trigger<C>, now: u64) -> bool {
    t.wait matches Some(w) && elapsed(t.last_fire, now) >= w
}

/// Whether a phrase in normal form sets its trigger off.
pub open spec fn fires<C>(m: Map<Seq<char>, Trigger<C>>, phrase: Seq<char>, now: u64) -> bool {
    phrase.len() > 0 && m.contains_key(phrase) && ready(m[phrase], now)
}

/// The table after a phrase in normal form was heard.
pub open spec fn after<C>(m: Map<Seq<char>, Trigger<C>>, phrase: Seq<char>, now: u64) -> Map<
    Seq<char>,
    Trigger<C>,
> {
    if fires(m, phrase, now) {
        m.insert(phrase, Trigger { last_fire: now, ..m[phrase] })
    } else {
        m
    }
}

/// A trigger as it is registered: as if it had fired a second ago.
pub open spec fn fresh<C>(cooldown: C, wait: Option<u64>, now: u64) -> Trigger<C> {
    Trigger { cooldown, wait, last_fire: (now - SECOND) as u64 }
}

/// A row of the table.
pub struct Entry<C> {
    phrase: String,
    trigger: Trigger<C>,
}

/// The triggers, one for a phrase at most.
pub struct Triggers<C> {
    entries: Vec<Entry<C>>,
}

/// Whether row `i` is that of the phrase.
spec fn row_of<C>(s: Seq<Entry<C>>, phrase: Seq<char>, i: int) -> bool {
    0 <= i < s.len() && s[i].phrase@ == phrase
}

/// The table that a list of rows stands for.
spec fn table<C>(s: Seq<Entry<C>>) -> Map<Seq<char>, Trigger<C>> {
    Map::new(
        |phrase: Seq<char>| exists|i: int| row_of(s, phrase, i),
        |phrase: Seq<char>| s[choose|i: int| row_of(s, phrase, i)].trigger,
    )
}

/// No phrase is empty or has two rows.
spec fn rows_wf<C>(s: Seq<Entry<C>>) -> bool {
    &&& forall|i: int| 0 <= i < s.len() ==> (#[trigger] s[i]).phrase@.len() > 0
    &&& forall|i: int, j: int|
        0 <= i < s.len() && 0 <= j < s.len() && (#[trigger] s[i]).phrase@ == (
        #[trigger] s[j]).phrase@ ==> i == j
}

/// The table has at a row's phrase that row's trigger.
proof fn lemma_row<C>(s: Seq<Entry<C>>, i: int)
    requires
        rows_wf(s),
        0 <= i < s.len(),
    ensures
        table(s).contains_key(s[i].phrase@),
        table(s)[s[i].phrase@] == s[i].trigger,
{
    let phrase = s[i].phrase@;
    assert(row_of(s, phrase, i));
    let k = choose|k: int| row_of(s, phrase, k);
    assert(s[k].phrase@ == s[i].phrase@);
}

impl<C> View for Triggers<C> {
    type V = Map<Seq<char>, Trigger<C>>;

    /// The trigger of each registered phrase.
    closed spec fn view(&self) -> Map<Seq<char>, Trigger<C>> {
        table(self.entries@)
    }
}

/// No trigger is filed under an empty phrase.
pub proof fn law_no_empty_phrase<C: Copy>(t: Triggers<C>)
    requires
        t.wf(),
    ensures
        forall|p: Seq<char>| #[trigger] t@.contains_key(p) ==> p.len() > 0,
{
    assert forall|p: Seq<char>| #[trigger] t@.contains_key(p) implies p.len() > 0 by {
        let i = choose|i: int| row_of(t.entries@, p, i);
        assert(t.entries@[i].phrase@ == p);
    }
}

impl<C: Copy> Triggers<C> {
    /// No phrase is empty or registered twice.
    pub closed spec fn wf(&self) -> bool {
        rows_wf(self.entries@)
    }

    /// A table with no triggers.
    pub fn new() -> (t: Self)
        ensures
            t.wf(),
            t@ == Map::<Seq<char>, Trigger<C>>::empty(),
    {
        let t = Triggers { entries: Vec::new() };
        assert(t@ =~= Map::<Seq<char>, Trigger<C>>::empty());
        t
    }

    /// The row of a phrase.
    fn find(&self, phrase: &String) -> (r: Option<usize>)
        ensures
            match r {
                Some(i) => row_of(self.entries@, phrase@, i as int),
                None => forall|i: int| !row_of(self.entries@, phrase@, i),
            },
    {
        for i in 0..self.entries.len()
            invariant
                forall|j: int| 0 <= j < i ==> !row_of(self.entries@, phrase@, j),
        {
            if self.entries[i].phrase == *phrase {
                return Some(i);
            }
        }
        None
    }

    /// Puts a trigger in the table, in the place of the phrase's old one where
    /// it has one.
    fn put(&mut self, phrase: String, trigger: Trigger<C>)
        requires
            old(self).wf(),
            phrase@.len() > 0,
        ensures
            final(self).wf(),
            final(self)@ == old(self)@.insert(phrase@, trigger),
    {
        let ghost before = self.entries@;
        let ghost key = phrase@;
        let place: Option<usize> = self.find(&phrase);
        let entry: Entry<C> = Entry { phrase, trigger };
        match place {
            Some(i) => {
                self.entries.set(i, entry);
            },
            None => {
                self.entries.push(entry);
            },
        }
        proof {
            let rows = self.entries@;
            assert(place is None ==> forall|i: int|
                0 <= i < before.len() ==> row_of(before, key, i) || (
                #[trigger] before[i]).phrase@ != key);
            assert(rows_wf(rows));
            assert forall|p: Seq<char>| #[trigger] table(rows).contains_key(p) == table(
                before,
            ).insert(key, trigger).contains_key(p) by {
                if table(rows).contains_key(p) {
                    let k = choose|k: int| row_of(rows, p, k);
                    if p != key {
                        assert(row_of(before, p, k));
                    }
                }
                if table(before).contains_key(p) && p != key {
                    let k = choose|k: int| row_of(before, p, k);
                    assert(row_of(rows, p, k));
                }
                if p == key {
                    let at = if place is Some { place->0 as int } else { before.len() as int };
                    assert(row_of(rows, p, at));
                }
            }
            assert forall|p: Seq<char>| #[trigger] table(rows).contains_key(p) implies table(
                rows,
            )[p] == table(before).insert(key, trigger)[p] by {
                let k = choose|k: int| row_of(rows, p, k);
                lemma_row(rows, k);
                if p != key {
                    lemma_row(before, k);
                }
            }
            assert(table(rows) =~= table(before).insert(key, trigger));
        }
    }

    /// Registers a trigger for a phrase in normal form. An empty phrase is
    /// refused.
    pub fn register(&mut self, phrase: String, cooldown: C, wait: Option<u64>, now: u64) -> (ok:
        bool)
        requires
            old(self).wf(),
            now >= SECOND,
        ensures
            final(self).wf(),
            ok == (phrase@.len() > 0),
            ok ==> final(self)@ == old(self)@.insert(phrase@, fresh(cooldown, wait, now)),
            !ok ==> final(self)@ == old(self)@,
    {
        if phrase.as_str().is_empty() {
            return false;
        }
        self.put(phrase, Trigger { cooldown, wait, last_fire: now - SECOND });
        true
    }

    /// Takes the trigger of a phrase in normal form out of the table.
    pub fn unregister(&mut self, phrase: &String)
        requires
            old(self).wf(),
        ensures
            final(self).wf(),
            final(self)@ == old(self)@.remove(phrase@),
    {
        let ghost before = self.entries@;
        let ghost key = phrase@;
        let place: Option<usize> = self.find(phrase);
        match place {
            Some(i) => {
                self.entries.remove(i);
                proof {
                    let rows = self.entries@;
                    assert forall|k: int| 0 <= k < rows.len() implies #[trigger] rows[k] == before[
                        if k < i {
                            k
                        } else {
                            k + 1
                        }
                    ] by {}
                    assert(rows_wf(rows));
                    assert forall|p: Seq<char>| #[trigger] table(rows).contains_key(p) == table(
                        before,
                    ).remove(key).contains_key(p) by {
                        if table(rows).contains_key(p) {
                            let k = choose|k: int| row_of(rows, p, k);
                            let was = if k < i { k } else { k + 1 };
                            assert(row_of(before, p, was));
                            assert(p == key ==> was == i) by {
                                assert(before[was].phrase@ == before[i as int].phrase@ ==> was
                                    == i);
                            }
                        }
                        if table(before).contains_key(p) && p != key {
                            let k = choose|k: int| row_of(before, p, k);
                            assert(row_of(rows, p, if k < i { k } else { k - 1 }));
                        }
                    }
                    assert forall|p: Seq<char>| #[trigger] table(rows).contains_key(p) implies table(
                        rows,
                    )[p] == table(before).remove(key)[p] by {
                        let k = choose|k: int| row_of(rows, p, k);
                        lemma_row(rows, k);
                        lemma_row(before, if k < i { k } else { k + 1 });
                    }
                    assert(table(rows) =~= table(before).remove(key));
                }
            },
            None => {
                assert(table(before) =~= table(before).remove(key)) by {
                    assert(!table(before).contains_key(key));
                }
            },
        }
    }

    /// Lets a phrase in normal form set its trigger off, if it has one and the
    /// cooldown is over.
    pub fn fire(&mut self, phrase: &String, now: u64) -> (fired: bool)
        requires
            old(self).wf(),
        ensures
            final(self).wf(),
            fired == fires(old(self)@, phrase@, now),
            final(self)@ == after(old(self)@, phrase@, now),
    {
        if phrase.as_str().is_empty() {
            return false;
        }
        let ghost before = self.entries@;
        match self.find(phrase) {
            Some(i) => {
                proof {
                    lemma_row(before, i as int);
                }
                let last_fire: u64 = self.entries[i].trigger.last_fire;
                let since: u64 = if now >= last_fire {
                    now - last_fire
                } else {
                    0
                };
                let wait: Option<u64> = self.entries[i].trigger.wait;
                let cooldown: C = self.entries[i].trigger.cooldown;
                let over: bool = match wait {
                    Some(w) => since >= w,
                    None => false,
                };
                if over {
                    self.put(phrase.clone(), Trigger { cooldown, wait, last_fire: now });
                }
                over
            },
            None => {
                assert(!table(before).contains_key(phrase@));
                false
            },
        }
    }

    /// The registered phrases with their cooldowns, each once, in no set order.
    pub fn list(&self) -> (rows: Vec<(String, C)>)
        requires
            self.wf(),
        ensures
            forall|i: int|
                0 <= i < rows@.len() ==> self@.contains_key((#[trigger] rows@[i]).0@)
                    && self@[rows@[i].0@].cooldown == rows@[i].1,
            forall|p: Seq<char>| #[trigger]
                self@.contains_key(p) ==> exists|i: int|
                    0 <= i < rows@.len() && (#[trigger] rows@[i]).0@ == p,
            forall|i: int, j: int|
                0 <= i < rows@.len() && 0 <= j < rows@.len() && (#[trigger] rows@[i]).0@ == (
                #[trigger] rows@[j]).0@ ==> i == j,
    {
        let mut rows: Vec<(String, C)> = Vec::new();
        for i in 0..self.entries.len()
            invariant
                rows@.len() == i,
                forall|j: int|
                    0 <= j < i ==> (#[trigger] rows@[j]).0@ == self.entries@[j].phrase@ && rows@[j].1
                        == self.entries@[j].trigger.cooldown,
        {
            rows.push((self.entries[i].phrase.clone(), self.entries[i].trigger.cooldown));
        }
        proof {
            assert forall|i: int| 0 <= i < rows@.len() implies self@.contains_key(
                (#[trigger] rows@[i]).0@,
            ) && self@[rows@[i].0@].cooldown == rows@[i].1 by {
                lemma_row(self.entries@, i);
            }
            assert forall|p: Seq<char>| #[trigger] self@.contains_key(p) implies exists|i: int|
                0 <= i < rows@.len() && (#[trigger] rows@[i]).0@ == p by {
                let k = choose|k: int| row_of(self.entries@, p, k);
                assert(rows@[k].0@ == p);
            }
            assert forall|i: int, j: int|
                0 <= i < rows@.len() && 0 <= j < rows@.len() && (#[trigger] rows@[i]).0@ == (
                #[trigger] rows@[j]).0@ implies i == j by {
                assert(self.entries@[i].phrase@ == self.entries@[j].phrase@);
            }
        }
        rows
    }
}

/// Whether `wait` is where a cooldown ends: `reached` was found to hold of the
/// cooldown there and not to hold a nanosecond before; none where it holds of no
/// time.
pub open spec fn threshold<C, F: Fn(C, u64) -> bool>(
    reached: F,
    cooldown: C,
    wait: Option<u64>,
) -> bool {
    match wait {
        Some(w) => {
            &&& reached.ensures((cooldown, w), true)
            &&& w > 0 ==> reached.ensures((cooldown, (w - 1) as u64), false)
        },
        None => reached.ensures((cooldown, u64::MAX), false),
    }
}

/// The nanoseconds after which a cooldown is over. `reached` tells whether a
/// time reaches a cooldown.
pub fn cooldown_wait<C: Copy, F: Fn(C, u64) -> bool>(reached: &F, cooldown: C) -> (wait: Option<
    u64,
>)
    requires
        forall|n: u64| #[trigger] reached.requires((cooldown, n)),
    ensures
        threshold(*reached, cooldown, wait),
{
    if !reached(cooldown, u64::MAX) {
        return None;
    }
    let mut low: u64 = 0;
    let mut high: u64 = u64::MAX;
    while low < high
        invariant
            low <= high,
            forall|n: u64| #[trigger] reached.requires((cooldown, n)),
            reached.ensures((cooldown, high), true),
            low > 0 ==> reached.ensures((cooldown, (low - 1) as u64), false),
        decreases high - low,
    {
        let middle: u64 = low + (high - low) / 2;
        if reached(cooldown, middle) {
            high = middle;
        } else {
            low = middle + 1;
        }
    }
    Some(high)
}

} // verus!
