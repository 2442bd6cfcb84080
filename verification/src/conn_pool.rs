//! Things that are used one at a time and kept for later, such as connections. Times are in
//! nanoseconds since some moment in the past.
use vstd::prelude::*;

verus! {

/// A pool of things that are not in use. What was put in last is taken out first; what has lain
/// too long is dropped.
#[derive(Debug)]
pub struct ConnPool<T> {
    idle_time: Option<u64>,
    list: Vec<(T, u64)>,
}

/// What a [`ConnPool`] holds: the things, with the times when they were taken into use, and for how
/// long they may be kept.
pub struct ConnPoolView<T> {
    pub idle_time: Option<u64>,
    pub list: Seq<(T, u64)>,
}

impl<T> View for ConnPool<T> {
    type V = ConnPoolView<T>;

    closed spec fn view(&self) -> ConnPoolView<T> {
        ConnPoolView { idle_time: self.idle_time, list: self.list@ }
    }
}

/// Whether something has lain too long.
pub open spec fn stale(idle_time: Option<u64>, since: u64, now: u64) -> bool {
    idle_time matches Some(time) && (if now > since {
        now - since
    } else {
        0
    }) >= time
}

/// What is taken out of a list, and what stays in it: the last that has not lain too long, and all
/// that was put in before.
pub open spec fn taken_out<T>(list: Seq<(T, u64)>, idle_time: Option<u64>, now: u64) -> (
    Option<T>,
    Seq<(T, u64)>,
)
    decreases list.len(),
{
    if list.len() == 0 {
        (None, list)
    } else if stale(idle_time, list.last().1, now) {
        taken_out(list.drop_last(), idle_time, now)
    } else {
        (Some(list.last().0), list.drop_last())
    }
}

/// Something in use.
pub struct ConnPoolGuard<T> {
    create_time: u64,
    reused: bool,
    raw: T,
}

/// What a [`ConnPoolGuard`] holds: the thing, since when it is in use, and whether it was used
/// before.
pub struct GuardView<T> {
    pub create_time: u64,
    pub reused: bool,
    pub raw: T,
}

impl<T> View for ConnPoolGuard<T> {
    type V = GuardView<T>;

    closed spec fn view(&self) -> GuardView<T> {
        GuardView { create_time: self.create_time, reused: self.reused, raw: self.raw }
    }
}

impl<T> ConnPool<T> {
    /// An empty pool.
    pub fn new(idle_time: Option<u64>) -> (r: Self)
        ensures
            r@ == (ConnPoolView::<T> { idle_time, list: Seq::empty() }),
    {
        ConnPool { idle_time, list: Vec::new() }
    }

    /// Takes something out of the pool, or makes it where there is nothing.
    pub fn get_or<F: FnOnce() -> Result<T, E>, E>(&mut self, now: u64, f: F) -> (r: Result<
        ConnPoolGuard<T>,
        E,
    >)
        requires
            f.requires(()),
        ensures
            final(self)@ == (ConnPoolView {
                list: taken_out(old(self)@.list, old(self)@.idle_time, now).1,
                ..old(self)@
            }),
            match taken_out(old(self)@.list, old(self)@.idle_time, now).0 {
                Some(raw) => r matches Ok(guard) && guard@ == (GuardView {
                    create_time: now,
                    reused: true,
                    raw,
                }),
                None => match r {
                    Ok(guard) => {
                        &&& f.ensures((), Ok(guard@.raw))
                        &&& guard@.create_time == now
                        &&& !guard@.reused
                    },
                    Err(e) => f.ensures((), Err(e)),
                },
            },
    {
        match self.pop(now) {
            Some(guard) => Ok(guard),
            None => match f() {
                Ok(item) => Ok(ConnPoolGuard::new(item, false, now)),
                Err(e) => Err(e),
            },
        }
    }

    /// Takes something out of the pool.
    pub fn pop(&mut self, now: u64) -> (r: Option<ConnPoolGuard<T>>)
        ensures
            final(self)@ == (ConnPoolView {
                list: taken_out(old(self)@.list, old(self)@.idle_time, now).1,
                ..old(self)@
            }),
            match taken_out(old(self)@.list, old(self)@.idle_time, now).0 {
                Some(raw) => r matches Some(guard) && guard@ == (GuardView {
                    create_time: now,
                    reused: true,
                    raw,
                }),
                None => r is None,
            },
    {
        loop
            invariant
                self@.idle_time == old(self)@.idle_time,
                taken_out(self@.list, self@.idle_time, now) == taken_out(
                    old(self)@.list,
                    old(self)@.idle_time,
                    now,
                ),
            decreases self@.list.len(),
        {
            let ghost before = self@.list;
            match self.list.pop() {
                None => return None,
                Some((item, since)) => {
                    assert(before.last() == (item, since));
                    if !is_stale(self.idle_time, since, now) {
                        return Some(ConnPoolGuard::new(item, true, now));
                    }
                },
            }
        }
    }
}

fn is_stale(idle_time: Option<u64>, since: u64, now: u64) -> (r: bool)
    ensures
        r == stale(idle_time, since, now),
{
    match idle_time {
        None => false,
        Some(time) => {
            if now > since {
                now - since >= time
            } else {
                time == 0
            }
        },
    }
}

impl<T> ConnPoolGuard<T> {
    /// Something taken into use.
    pub fn new(item: T, reused: bool, now: u64) -> (r: Self)
        ensures
            r@ == (GuardView { create_time: now, reused, raw: item }),
    {
        ConnPoolGuard { create_time: now, reused, raw: item }
    }

    /// Puts it into a pool, for later. What is not put back is dropped.
    pub fn reuse(self, pool: &mut ConnPool<T>)
        ensures
            final(pool)@ == (ConnPoolView {
                list: old(pool)@.list.push((self@.raw, self@.create_time)),
                ..old(pool)@
            }),
    {
        pool.list.push((self.raw, self.create_time));
    }

    /// Whether it was used before.
    pub fn is_reused(&self) -> (r: bool)
        ensures
            r == self@.reused,
    {
        self.reused
    }

    /// The thing itself.
    pub fn raw(&mut self) -> (r: &mut T)
        ensures
            *r == old(self)@.raw,
            final(self)@ == (GuardView { raw: *final(r), ..old(self)@ }),
    {
        &mut self.raw
    }
}

/// What was put back last is taken out next, if it has not lain too long, and the rest is left as
/// it was.
pub proof fn law_last_in_first_out<T>(
    list: Seq<(T, u64)>,
    item: T,
    since: u64,
    idle_time: Option<u64>,
    now: u64,
)
    requires
        !stale(idle_time, since, now),
    ensures
        taken_out(list.push((item, since)), idle_time, now) == (Some(item), list),
{
    assert(list.push((item, since)).drop_last() =~= list);
}

/// Nothing that has lain too long is ever taken out: what is taken out was in the pool and has not,
/// all that lay on top of it has, and nothing else is lost.
pub proof fn law_nothing_stale_is_taken<T>(list: Seq<(T, u64)>, idle_time: Option<u64>, now: u64)
    ensures
        ({
            let (item, rest) = taken_out(list, idle_time, now);
            let n = rest.len() as int;
            &&& n <= list.len()
            &&& rest == list.take(n)
            &&& match item {
                Some(item) => {
                    &&& n < list.len()
                    &&& list[n].0 == item
                    &&& !stale(idle_time, list[n].1, now)
                    &&& forall|i: int|
                        n < i < list.len() ==> stale(idle_time, (#[trigger] list[i]).1, now)
                },
                None => n == 0 && forall|i: int|
                    0 <= i < list.len() ==> stale(idle_time, (#[trigger] list[i]).1, now),
            }
        }),
    decreases list.len(),
{
    if list.len() == 0 {
        assert(list =~= list.take(0));
    } else if stale(idle_time, list.last().1, now) {
        let shorter = list.drop_last();
        law_nothing_stale_is_taken(shorter, idle_time, now);
        let (item, rest) = taken_out(list, idle_time, now);
        let n = rest.len() as int;
        assert(shorter.take(n) =~= list.take(n));
        assert forall|i: int| n < i < list.len() implies stale(
            idle_time,
            (#[trigger] list[i]).1,
            now,
        ) by {
            if i < shorter.len() {
                assert(shorter[i] == list[i]);
            }
        }
        if item is None {
            assert forall|i: int| 0 <= i < list.len() implies stale(
                idle_time,
                (#[trigger] list[i]).1,
                now,
            ) by {
                if i < shorter.len() {
                    assert(shorter[i] == list[i]);
                }
            }
        }
    } else {
        assert(list.drop_last() =~= list.take(list.len() - 1));
    }
}

} // verus!
