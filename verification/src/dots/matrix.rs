//! The version matrix: what each replica is known to have observed, and the
//! stable frontier that follows from it.

use std::collections::HashMap;
use vstd::prelude::*;
use crate::crdt::STABLE_REPLICA_PID;
use crate::dots::{
    ascending, ascending_keys, counter_of, covers, lemma_contains_push, lemma_take_next, Counter, Dot,
    DotSet, UNSEEN,
};
use crate::prelude::Pid;

verus! {

broadcast use vstd::std_specs::hash::group_hash_axioms;

/// What a replica knows of what every replica has observed.
#[derive(Debug)]
pub struct VersionMatrix {
    own_pid: Pid,
    matrix: HashMap<Pid, DotSet>,
    final_dots: HashMap<Pid, Counter>,
}

/// The contents of a [`VersionMatrix`]: one version vector per replica, and
/// the last counter of each replica that has announced its departure.
#[verifier::ext_equal]
pub struct MatrixView {
    pub own_pid: Pid,
    pub rows: Map<Pid, Map<Pid, Counter>>,
    pub final_dots: Map<Pid, Counter>,
}

impl View for VersionMatrix {
    type V = MatrixView;

    closed spec fn view(&self) -> MatrixView {
        MatrixView {
            own_pid: self.own_pid,
            rows: self.matrix@.map_values(|row: DotSet| row@),
            final_dots: self.final_dots@,
        }
    }
}

impl MatrixView {
    /// The local replica has a row, as every operation that reads it needs.
    pub open spec fn has_own_row(self) -> bool {
        self.rows.contains_key(self.own_pid)
    }

    /// The row of the local replica.
    pub open spec fn own_row(self) -> Map<Pid, Counter> {
        self.rows[self.own_pid]
    }

    /// The epoch that the local replica has reached.
    pub open spec fn own_epoch(self) -> Counter {
        counter_of(self.own_row(), STABLE_REPLICA_PID)
    }

    /// The last dot of a replica that has announced its departure.
    pub open spec fn final_dot(self, pid: Pid) -> Dot {
        Dot { pid, counter: self.final_dots[pid] }
    }

    /// The matrix after a version vector arrived: one of an older epoch than
    /// the local one leaves it as it is.
    pub open spec fn updated(self, pid: Pid, vector: Map<Pid, Counter>) -> MatrixView {
        if self.own_epoch() <= counter_of(vector, STABLE_REPLICA_PID) {
            MatrixView { rows: self.rows.insert(pid, vector), ..self }
        } else {
            self
        }
    }

    /// The row of a replica of which only its epoch is known.
    pub open spec fn unseen_row(pid: Pid, epoch: Counter) -> Map<Pid, Counter> {
        Map::<Pid, Counter>::empty().insert(pid, UNSEEN).insert(STABLE_REPLICA_PID, epoch)
    }

    /// The matrix after a replica was discovered.
    pub open spec fn discovered(self, pid: Pid, epoch: Counter) -> MatrixView {
        if pid == STABLE_REPLICA_PID || self.rows.contains_key(pid) {
            self
        } else {
            MatrixView {
                rows: self.rows.insert(pid, MatrixView::unseen_row(pid, epoch)),
                ..self
            }
        }
    }

    /// Whether the stable row covers all that a replica has announced, so that
    /// nothing is lost with its row.
    pub open spec fn removable(self, pid: Pid) -> bool {
        self.final_dots.contains_key(pid) ==> covers(
            self.rows[STABLE_REPLICA_PID],
            self.final_dot(pid),
        )
    }

    /// The replicas out of `pids` that leave the matrix.
    pub open spec fn leaving(self, pids: Seq<Pid>) -> Set<Pid> {
        Set::new(
            |p: Pid|
                pids.contains(p) && self.rows.contains_key(STABLE_REPLICA_PID) && self.removable(p),
        )
    }

    /// The matrix without the rows, the columns and the final dots of `gone`.
    pub open spec fn without(self, gone: Set<Pid>) -> MatrixView {
        MatrixView {
            own_pid: self.own_pid,
            rows: Map::new(
                |p: Pid| self.rows.contains_key(p) && !gone.contains(p),
                |p: Pid| self.rows[p].remove_keys(gone),
            ),
            final_dots: self.final_dots.remove_keys(gone),
        }
    }

    /// The replicas that `departed` lets go.
    pub open spec fn leaving_of(self, departed: Option<Seq<Pid>>) -> Set<Pid> {
        match departed {
            Some(pids) => self.leaving(pids),
            None => Set::empty(),
        }
    }

    /// Whether the local replica has a row once `departed` are gone and the
    /// stable row is installed.
    pub open spec fn keeps_own_row(self, departed: Option<Seq<Pid>>) -> bool {
        self.own_pid == STABLE_REPLICA_PID || (self.has_own_row() && !self.leaving_of(
            departed,
        ).contains(self.own_pid))
    }

    /// The matrix after a garbage-collection round: the departed replicas are
    /// gone, `stable` is the stable row, and the local epoch is that of the
    /// round.
    pub open spec fn collected(
        self,
        stable: Map<Pid, Counter>,
        departed: Option<Seq<Pid>>,
        epoch: Counter,
    ) -> MatrixView {
        let rest = self.without(self.leaving_of(departed));
        let with_stable = rest.rows.insert(
            STABLE_REPLICA_PID,
            stable.insert(STABLE_REPLICA_PID, epoch),
        );
        MatrixView {
            rows: with_stable.insert(
                self.own_pid,
                with_stable[self.own_pid].insert(STABLE_REPLICA_PID, epoch),
            ),
            ..rest
        }
    }

    /// Whether the row of `pid` takes part in the stable frontier. The stable
    /// row never does; the row of a departed replica does until the local
    /// replica has observed all of it.
    pub open spec fn observes(self, pid: Pid) -> bool {
        &&& self.rows.contains_key(pid)
        &&& pid != STABLE_REPLICA_PID
        &&& !(self.final_dots.contains_key(pid) && covers(self.own_row(), self.final_dot(pid)))
    }

    /// Whether `counter` is the least counter that an observer gives `pid`.
    pub open spec fn is_floor(self, pid: Pid, counter: Counter) -> bool {
        &&& exists|o: Pid| #[trigger] self.observes(o) && counter_of(self.rows[o], pid) == counter
        &&& forall|o: Pid| #[trigger] self.observes(o) ==> counter <= counter_of(self.rows[o], pid)
    }

    /// Whether the frontier has a column for `pid`, departures aside.
    pub open spec fn has_column(self, pid: Pid) -> bool {
        self.observes(pid) || exists|o: Pid| #[trigger]
            self.observes(o) && self.rows[o].contains_key(pid)
    }

    /// Whether a departed replica can go: the stable row, which only a
    /// completed round installs, covers its last dot.
    pub open spec fn departs(self, pid: Pid) -> bool {
        &&& self.rows.contains_key(STABLE_REPLICA_PID)
        &&& self.final_dots.contains_key(pid)
        &&& covers(self.rows[STABLE_REPLICA_PID], self.final_dot(pid))
    }

    /// Whether `frontier` is the stable frontier: the pointwise minimum of the
    /// observers' rows, without the columns of the replicas that can go.
    pub open spec fn is_frontier(self, frontier: Map<Pid, Counter>) -> bool {
        &&& forall|p: Pid| #[trigger]
            frontier.contains_key(p) <==> self.has_column(p) && !self.departs(p)
        &&& forall|p: Pid| #[trigger] frontier.contains_key(p) ==> self.is_floor(p, frontier[p])
    }
}

impl VersionMatrix {
    /// The matrix of a replica that has observed nothing.
    pub fn new(own_pid: Pid) -> (matrix: Self)
        ensures
            matrix@ == (MatrixView {
                own_pid,
                rows: Map::<Pid, Map<Pid, Counter>>::empty().insert(
                    own_pid,
                    MatrixView::unseen_row(own_pid, UNSEEN),
                ),
                final_dots: Map::empty(),
            }),
            matrix@.has_own_row(),
    {
        let mut matrix: HashMap<Pid, DotSet> = HashMap::new();
        let mut initial_vector = DotSet::new();
        initial_vector.set_counter(own_pid, UNSEEN);
        initial_vector.set_counter(STABLE_REPLICA_PID, UNSEEN);
        matrix.insert(own_pid, initial_vector);
        let made = VersionMatrix { own_pid, matrix, final_dots: HashMap::new() };
        assert(made@.rows =~= Map::<Pid, Map<Pid, Counter>>::empty().insert(
            own_pid,
            MatrixView::unseen_row(own_pid, UNSEEN),
        ));
        made
    }

    /// Takes the version vector that a replica reported, unless it was taken
    /// in an epoch before the local one.
    pub fn update(&mut self, pid: Pid, version_vector: DotSet)
        requires
            old(self)@.has_own_row(),
        ensures
            final(self)@ == old(self)@.updated(pid, version_vector@),
            final(self)@.has_own_row(),
    {
        if *self.own_gc_counter() <= *version_vector.gc_counter() {
            self.matrix.insert(pid, version_vector);
            assert(self@.rows =~= old(self)@.rows.insert(pid, version_vector@));
        }
    }

    /// Makes room for a replica that was discovered; one that is known keeps
    /// its row.
    pub fn insert_pid(&mut self, pid: Pid, gc_counter: Counter)
        ensures
            final(self)@ == old(self)@.discovered(pid, gc_counter),
    {
        if pid == STABLE_REPLICA_PID || self.matrix.contains_key(&pid) {
            return;
        }
        let mut version_vector = DotSet::new();
        version_vector.set_counter(pid, UNSEEN);
        version_vector.set_counter(STABLE_REPLICA_PID, gc_counter);
        self.matrix.insert(pid, version_vector);
        assert(self@.rows =~= old(self)@.rows.insert(pid, version_vector@));
    }

    /// The local replica.
    pub fn own_pid(&self) -> (pid: Pid)
        ensures
            pid == self@.own_pid,
    {
        self.own_pid
    }

    /// The row of a replica, if it has one.
    pub fn row(&self, pid: &Pid) -> (row: Option<&DotSet>)
        ensures
            match row {
                Some(row) => self@.rows.contains_key(*pid) && self@.rows[*pid] == row@,
                None => !self@.rows.contains_key(*pid),
            },
    {
        self.matrix.get(pid)
    }

    /// Makes the matrix that of another replica, with `version_vector` as its
    /// row.
    pub fn rebind_own_pid(&mut self, pid: Pid, version_vector: DotSet)
        ensures
            final(self)@ == (MatrixView {
                own_pid: pid,
                rows: old(self)@.rows.insert(pid, version_vector@),
                final_dots: old(self)@.final_dots,
            }),
            final(self)@.has_own_row(),
    {
        self.own_pid = pid;
        self.matrix.insert(pid, version_vector);
        assert(self@.rows =~= old(self)@.rows.insert(pid, version_vector@));
    }

    /// The epoch that the local replica has reached.
    pub fn own_gc_counter(&self) -> (counter: &Counter)
        requires
            self@.has_own_row(),
        ensures
            *counter == self@.own_epoch(),
    {
        match self.matrix.get(&self.own_pid) {
            Some(row) => row.gc_counter(),
            None => &UNSEEN,
        }
    }

    /// Drops a column from every row.
    fn remove_column(&mut self, pid: Pid)
        ensures
            final(self)@ == (MatrixView {
                rows: old(self)@.rows.map_values(|row: Map<Pid, Counter>| row.remove(pid)),
                ..old(self)@
            }),
    {
        let keys = ascending_keys(&self.matrix);
        for i in 0..keys.len()
            invariant
                self.own_pid == old(self).own_pid,
                self.final_dots@ == old(self).final_dots@,
                ascending(keys@),
                forall|p: Pid| #[trigger] keys@.contains(p) <==> old(self).matrix@.contains_key(p),
                forall|p: Pid| #[trigger]
                    self.matrix@.contains_key(p) <==> old(self).matrix@.contains_key(p),
                forall|p: Pid| #[trigger]
                    self.matrix@.contains_key(p) ==> self.matrix@[p]@ == if keys@.take(
                        i as int,
                    ).contains(p) {
                        old(self).matrix@[p]@.remove(pid)
                    } else {
                        old(self).matrix@[p]@
                    },
        {
            let key: Pid = keys[i];
            assert(keys@.contains(key));
            assert(!keys@.take(i as int).contains(key));
            if let Some(mut row) = self.matrix.remove(&key) {
                row.remove_pid(pid);
                self.matrix.insert(key, row);
            }
            proof {
                lemma_take_next(keys@, i as int);
            }
        }
        proof {
            assert(keys@.take(keys@.len() as int) =~= keys@);
            assert(self@.rows =~= old(self)@.rows.map_values(
                |row: Map<Pid, Counter>| row.remove(pid),
            ));
        }
    }

    /// Removes departed replicas, except for those whose last dot the stable
    /// row does not cover yet. Without a stable row none is removed.
    pub fn remove_pids(&mut self, pids: &Vec<Pid>)
        ensures
            final(self)@ == old(self)@.without(old(self)@.leaving(pids@)),
    {
        let stable = match self.matrix.get(&STABLE_REPLICA_PID) {
            Some(row) => row.clone(),
            None => {
                proof {
                    assert(old(self)@.leaving(pids@) =~= Set::empty());
                    lemma_without_none(old(self)@);
                }
                return;
            },
        };
        proof {
            assert(old(self)@.leaving(pids@.take(0)) =~= Set::empty());
            lemma_without_none(old(self)@);
        }
        for i in 0..pids.len()
            invariant
                old(self)@.rows.contains_key(STABLE_REPLICA_PID),
                stable@ == old(self)@.rows[STABLE_REPLICA_PID],
                self@ == old(self)@.without(old(self)@.leaving(pids@.take(i as int))),
        {
            let pid: Pid = pids[i];
            let blocked = match self.final_dots.get(&pid) {
                Some(counter) => !stable.contains(&Dot { pid, counter: *counter }),
                None => false,
            };
            let ghost before = old(self)@.leaving(pids@.take(i as int));
            let ghost after = old(self)@.leaving(pids@.take(i + 1));
            proof {
                lemma_take_next(pids@, i as int);
            }
            if !blocked {
                let ghost rows = self@.rows;
                self.matrix.remove(&pid);
                self.final_dots.remove(&pid);
                assert(self@.rows =~= rows.remove(pid));
                self.remove_column(pid);
                proof {
                    assert(after =~= before.insert(pid));
                    assert forall|p: Pid| #[trigger] self@.rows.contains_key(p) implies
                        self@.rows[p] == old(self)@.rows[p].remove_keys(after) by {
                        assert(self@.rows[p] =~= old(self)@.rows[p].remove_keys(after));
                    }
                    assert(self@.rows =~= old(self)@.without(after).rows);
                    assert(self@.final_dots =~= old(self)@.without(after).final_dots);
                }
            } else {
                assert(after =~= before);
            }
        }
        assert(pids@.take(pids@.len() as int) =~= pids@);
    }

    /// Installs the outcome of a garbage-collection round; see
    /// [`MatrixView::collected`].
    pub fn apply_gc_marker(
        &mut self,
        stable: &DotSet,
        departed_pids: &Option<Vec<Pid>>,
        gc_counter: Counter,
    )
        requires
            old(self)@.keeps_own_row(listed(*departed_pids)),
        ensures
            final(self)@ == old(self)@.collected(stable@, listed(*departed_pids), gc_counter),
            final(self)@.has_own_row(),
            final(self)@.own_epoch() == gc_counter,
    {
        match departed_pids {
            Some(pids) => {
                self.remove_pids(pids);
            },
            None => {
                proof {
                    lemma_without_none(self@);
                }
            },
        }
        let ghost rest = self@;
        assert(rest == old(self)@.without(old(self)@.leaving_of(listed(*departed_pids))));
        let mut stable_vv = stable.clone();
        stable_vv.set_counter(STABLE_REPLICA_PID, gc_counter);
        self.matrix.insert(STABLE_REPLICA_PID, stable_vv);
        let ghost with_stable = self@.rows;
        assert(with_stable =~= rest.rows.insert(
            STABLE_REPLICA_PID,
            stable@.insert(STABLE_REPLICA_PID, gc_counter),
        ));
        let own_pid: Pid = self.own_pid;
        if let Some(mut own_row) = self.matrix.remove(&own_pid) {
            own_row.set_counter(STABLE_REPLICA_PID, gc_counter);
            self.matrix.insert(own_pid, own_row);
        }
        assert(self@.rows =~= with_stable.insert(
            own_pid,
            with_stable[own_pid].insert(STABLE_REPLICA_PID, gc_counter),
        ));
        assert(with_stable.contains_key(own_pid));
    }

    /// Whether the row of `pid` takes part in the stable frontier.
    fn observes(&self, pid: Pid) -> (observing: bool)
        requires
            self@.has_own_row(),
            self@.rows.contains_key(pid),
        ensures
            observing == self@.observes(pid),
    {
        if pid == STABLE_REPLICA_PID {
            return false;
        }
        match (self.final_dots.get(&pid), self.matrix.get(&self.own_pid)) {
            (Some(counter), Some(own_row)) => !own_row.contains(&Dot { pid, counter: *counter }),
            _ => true,
        }
    }

    /// The replicas whose rows take part in the stable frontier, in ascending
    /// order.
    pub fn get_observer_rows(&self) -> (observers: Vec<Pid>)
        requires
            self@.has_own_row(),
        ensures
            ascending(observers@),
            forall|p: Pid| #[trigger] observers@.contains(p) <==> self@.observes(p),
    {
        let keys = ascending_keys(&self.matrix);
        let mut observers: Vec<Pid> = Vec::new();
        for i in 0..keys.len()
            invariant
                self@.has_own_row(),
                ascending(keys@),
                forall|p: Pid| #[trigger] keys@.contains(p) <==> self@.rows.contains_key(p),
                ascending(observers@),
                forall|p: Pid| #[trigger]
                    observers@.contains(p) <==> keys@.take(i as int).contains(p)
                        && self@.observes(p),
        {
            let pid: Pid = keys[i];
            assert(keys@.contains(pid));
            let ghost before = observers@;
            proof {
                lemma_take_next(keys@, i as int);
                assert forall|j: int| 0 <= j < before.len() implies before[j] < pid by {
                    assert(before.contains(before[j]));
                    let k = choose|k: int| 0 <= k < i && keys@[k] == before[j];
                }
            }
            if self.observes(pid) {
                observers.push(pid);
                proof {
                    lemma_contains_push(before, pid);
                }
            }
        }
        proof {
            assert(keys@.take(keys@.len() as int) =~= keys@);
        }
        observers
    }

    /// Whether the departed replica `pid` can go.
    fn departs(&self, pid: Pid) -> (departing: bool)
        ensures
            departing == self@.departs(pid),
    {
        match (self.final_dots.get(&pid), self.matrix.get(&STABLE_REPLICA_PID)) {
            (Some(counter), Some(stable)) => stable.contains(&Dot { pid, counter: *counter }),
            _ => false,
        }
    }

    /// The departed replicas that can go, in ascending order.
    fn departures(&self) -> (departed: Vec<Pid>)
        ensures
            ascending(departed@),
            forall|p: Pid| #[trigger] departed@.contains(p) <==> self@.departs(p),
    {
        let keys = ascending_keys(&self.final_dots);
        let mut departed: Vec<Pid> = Vec::new();
        for i in 0..keys.len()
            invariant
                ascending(keys@),
                forall|p: Pid| #[trigger] keys@.contains(p) <==> self@.final_dots.contains_key(p),
                ascending(departed@),
                forall|p: Pid| #[trigger]
                    departed@.contains(p) <==> keys@.take(i as int).contains(p)
                        && self@.departs(p),
        {
            let pid: Pid = keys[i];
            assert(keys@.contains(pid));
            let ghost before = departed@;
            proof {
                lemma_take_next(keys@, i as int);
                assert forall|j: int| 0 <= j < before.len() implies before[j] < pid by {
                    assert(before.contains(before[j]));
                    let k = choose|k: int| 0 <= k < i && keys@[k] == before[j];
                }
            }
            if self.departs(pid) {
                departed.push(pid);
                proof {
                    lemma_contains_push(before, pid);
                }
            }
        }
        proof {
            assert(keys@.take(keys@.len() as int) =~= keys@);
        }
        departed
    }

    /// The pointwise minimum of the rows of `observers`, with a column for
    /// each of them.
    fn minimum(&self, observers: &Vec<Pid>) -> (minimum: DotSet)
        requires
            observers@.len() > 0,
            forall|p: Pid| #[trigger] observers@.contains(p) <==> self@.observes(p),
        ensures
            forall|p: Pid| #[trigger] minimum@.contains_key(p) <==> self@.has_column(p),
            forall|p: Pid| #[trigger]
                minimum@.contains_key(p) ==> self@.is_floor(p, minimum@[p]),
    {
        let mut minimum = DotSet::new();
        let mut i: usize = 0;
        while i < observers.len()
            invariant
                i <= observers@.len(),
                forall|p: Pid| #[trigger] observers@.contains(p) <==> self@.observes(p),
                forall|p: Pid| #[trigger]
                    minimum@.contains_key(p) <==> exists|k: int|
                        0 <= k < i && self@.rows[#[trigger] observers@[k]].contains_key(p),
                forall|p: Pid, k: int|
                    0 <= k < i ==> #[trigger] counter_of(minimum@, p) <= counter_of(
                        self@.rows[#[trigger] observers@[k]],
                        p,
                    ),
                i > 0 ==> forall|p: Pid|
                    attained(self@.rows, observers@.take(i as int), p, #[trigger] counter_of(
                        minimum@,
                        p,
                    )),
            decreases observers@.len() - i,
        {
            let pid: Pid = observers[i];
            assert(observers@.contains(pid));
            let ghost before = minimum@;
            if let Some(row) = self.matrix.get(&pid) {
                if i > 0 {
                    minimum.pointwise_min(row);
                } else {
                    minimum = row.clone();
                }
                proof {
                    let row = self@.rows[pid];
                    assert(observers@[i as int] == pid);
                    assert forall|p: Pid| #[trigger] minimum@.contains_key(p) <==> exists|k: int|
                        0 <= k < i + 1 && self@.rows[#[trigger] observers@[k]].contains_key(p) by {
                        if i > 0 && before.contains_key(p) {
                            let k = choose|k: int|
                                0 <= k < i && self@.rows[#[trigger] observers@[k]].contains_key(p);
                            assert(0 <= k < i + 1 && self@.rows[observers@[k]].contains_key(p));
                        }
                    }
                    lemma_take_next(observers@, i as int);
                    assert forall|p: Pid|
                        attained(self@.rows, observers@.take(i + 1), p, #[trigger] counter_of(
                            minimum@,
                            p,
                        )) by {
                        if i > 0 && counter_of(before, p) <= counter_of(row, p) {
                            assert(attained(
                                self@.rows,
                                observers@.take(i as int),
                                p,
                                counter_of(before, p),
                            ));
                            let o = choose|o: Pid| #[trigger]
                                observers@.take(i as int).contains(o) && counter_of(
                                    self@.rows[o],
                                    p,
                                ) == counter_of(before, p);
                            assert(observers@.take(i + 1).contains(o));
                        } else {
                            assert(observers@.take(i + 1).contains(pid));
                        }
                    }
                    assert forall|p: Pid, k: int| 0 <= k < i + 1 implies #[trigger] counter_of(
                        minimum@,
                        p,
                    ) <= counter_of(self@.rows[#[trigger] observers@[k]], p) by {
                        if k < i {
                            assert(counter_of(before, p) <= counter_of(
                                self@.rows[observers@[k]],
                                p,
                            ));
                        }
                    }
                }
            }
            i = i + 1;
        }
        assert(observers@.take(observers@.len() as int) =~= observers@);
        let ghost rows_only = minimum@;
        proof {
            assert forall|p: Pid| #[trigger] self@.is_floor(p, counter_of(rows_only, p)) by {
                assert(attained(self@.rows, observers@, p, counter_of(rows_only, p)));
                let o = choose|o: Pid| #[trigger]
                    observers@.contains(o) && counter_of(self@.rows[o], p) == counter_of(
                        rows_only,
                        p,
                    );
                assert(self@.observes(o));
                assert forall|o: Pid| #[trigger] self@.observes(o) implies counter_of(rows_only, p)
                    <= counter_of(self@.rows[o], p) by {
                    assert(observers@.contains(o));
                    let k = choose|k: int| 0 <= k < observers@.len() && observers@[k] == o;
                    assert(counter_of(rows_only, p) <= counter_of(self@.rows[observers@[k]], p));
                }
            }
            assert forall|p: Pid| #[trigger] rows_only.contains_key(p) <==> exists|o: Pid|
                #[trigger] self@.observes(o) && self@.rows[o].contains_key(p) by {
                if rows_only.contains_key(p) {
                    let k = choose|k: int|
                        0 <= k < observers@.len()
                            && self@.rows[#[trigger] observers@[k]].contains_key(p);
                    assert(observers@.contains(observers@[k]));
                    assert(self@.observes(observers@[k]));
                }
                if exists|o: Pid| #[trigger] self@.observes(o) && self@.rows[o].contains_key(p) {
                    let o = choose|o: Pid| #[trigger]
                        self@.observes(o) && self@.rows[o].contains_key(p);
                    assert(observers@.contains(o));
                    let k = choose|k: int| 0 <= k < observers@.len() && observers@[k] == o;
                    assert(self@.rows[observers@[k]].contains_key(p));
                }
            }
        }
        for i in 0..observers.len()
            invariant
                forall|p: Pid| #[trigger]
                    minimum@.contains_key(p) <==> rows_only.contains_key(p) || observers@.take(
                        i as int,
                    ).contains(p),
                forall|p: Pid| #[trigger]
                    minimum@.contains_key(p) ==> minimum@[p] == counter_of(rows_only, p),
        {
            let pid: Pid = observers[i];
            if minimum.counter(&pid).is_none() {
                minimum.set_counter(pid, UNSEEN);
            }
            proof {
                lemma_take_next(observers@, i as int);
            }
        }
        assert(observers@.take(observers@.len() as int) =~= observers@);
        minimum
    }

    /// Returns the stable frontier, and the departed replicas that can now be
    /// collected.
    ///
    /// The frontier is what every observer has observed. A replica that
    /// departed is listed only once the stable row covers its last dot: the
    /// frontier that covers it must first complete a round.
    pub fn get_stable(&self) -> (found: (Option<DotSet>, Option<Vec<Pid>>))
        requires
            self@.has_own_row(),
        ensures
            found.0 is Some <==> exists|p: Pid| #[trigger] self@.observes(p),
            found.0 is Some ==> self@.is_frontier(found.0->0@),
            found.1 is Some <==> found.0 is Some && exists|p: Pid| #[trigger] self@.departs(p),
            found.1 is Some ==> ascending(found.1->0@) && forall|p: Pid| #[trigger]
                found.1->0@.contains(p) <==> self@.departs(p),
    {
        let observers = self.get_observer_rows();
        if observers.len() == 0 {
            proof {
                assert forall|p: Pid| !#[trigger] self@.observes(p) by {
                    assert(!observers@.contains(p));
                }
            }
            return (None, None);
        }
        assert(self@.observes(observers@[0])) by {
            assert(observers@.contains(observers@[0]));
        }
        let mut stable = self.minimum(&observers);
        let ghost minimum = stable@;
        let departed = self.departures();
        for i in 0..departed.len()
            invariant
                forall|p: Pid| #[trigger]
                    stable@.contains_key(p) <==> minimum.contains_key(p) && !departed@.take(
                        i as int,
                    ).contains(p),
                forall|p: Pid| #[trigger] stable@.contains_key(p) ==> stable@[p] == minimum[p],
        {
            let pid: Pid = departed[i];
            stable.remove_pid(pid);
            proof {
                lemma_take_next(departed@, i as int);
            }
        }
        assert(departed@.take(departed@.len() as int) =~= departed@);
        if departed.len() == 0 {
            proof {
                assert forall|p: Pid| !#[trigger] self@.departs(p) by {
                    assert(!departed@.contains(p));
                }
            }
            (Some(stable), None)
        } else {
            assert(self@.departs(departed@[0])) by {
                assert(departed@.contains(departed@[0]));
            }
            (Some(stable), Some(departed))
        }
    }

    /// Notes the last dot of a replica that departs. Its row stays until that
    /// dot is stable.
    pub fn insert_final_dot(&mut self, dot: Dot)
        ensures
            final(self)@ == (MatrixView {
                final_dots: old(self)@.final_dots.insert(dot.pid, dot.counter),
                ..old(self)@
            }),
    {
        self.final_dots.insert(dot.pid, dot.counter);
    }

    /// Whether the local replica has a row once `departed_pids` are gone and
    /// the stable row is installed.
    pub fn keeps_own_row(&self, departed_pids: &Option<Vec<Pid>>) -> (kept: bool)
        ensures
            kept == self@.keeps_own_row(listed(*departed_pids)),
    {
        if self.own_pid == STABLE_REPLICA_PID {
            return true;
        }
        if !self.matrix.contains_key(&self.own_pid) {
            return false;
        }
        let pids = match departed_pids {
            None => return true,
            Some(pids) => pids,
        };
        let stable = match self.matrix.get(&STABLE_REPLICA_PID) {
            None => return true,
            Some(stable) => stable,
        };
        let removable = match self.final_dots.get(&self.own_pid) {
            Some(counter) => stable.contains(&Dot { pid: self.own_pid, counter: *counter }),
            None => true,
        };
        let mut named = false;
        for i in 0..pids.len()
            invariant
                named <==> pids@.take(i as int).contains(self.own_pid),
        {
            proof {
                lemma_take_next(pids@, i as int);
            }
            if pids[i] == self.own_pid {
                named = true;
            }
        }
        assert(pids@.take(pids@.len() as int) =~= pids@);
        !(named && removable)
    }

    /// Returns whether this exact final dot was noted before.
    pub fn contains_final_dot(&self, dot: Dot) -> (noted: bool)
        ensures
            noted == (self@.final_dots.get(dot.pid) == Some(dot.counter)),
    {
        match self.final_dots.get(&dot.pid) {
            Some(counter) => *counter == dot.counter,
            None => false,
        }
    }
}

/// A matrix taken apart, as it is written to disk.
#[derive(Debug)]
pub struct MatrixParts {
    pub own_pid: Pid,
    pub rows: Vec<(Pid, DotSet)>,
    pub final_dots: Vec<Dot>,
}

/// The rows in a list; of two for one replica the later counts.
pub open spec fn rows_from(list: Seq<(Pid, DotSet)>) -> Map<Pid, Map<Pid, Counter>>
    decreases list.len(),
{
    if list.len() == 0 {
        Map::empty()
    } else {
        rows_from(list.drop_last()).insert(list.last().0, list.last().1@)
    }
}

/// The final dots in a list; of two for one replica the later counts.
pub open spec fn final_dots_from(list: Seq<Dot>) -> Map<Pid, Counter>
    decreases list.len(),
{
    if list.len() == 0 {
        Map::empty()
    } else {
        final_dots_from(list.drop_last()).insert(list.last().pid, list.last().counter)
    }
}

impl MatrixParts {
    /// The matrix that the parts make up.
    pub open spec fn whole(&self) -> MatrixView {
        MatrixView {
            own_pid: self.own_pid,
            rows: rows_from(self.rows@),
            final_dots: final_dots_from(self.final_dots@),
        }
    }
}

impl VersionMatrix {
    /// The matrix, taken apart.
    pub fn to_parts(&self) -> (parts: MatrixParts)
        ensures
            parts.whole() == self@,
    {
        let rows = self.row_list();
        let final_dots = self.final_dot_list();
        MatrixParts { own_pid: self.own_pid, rows, final_dots }
    }

    /// The rows, in ascending order of the replicas.
    fn row_list(&self) -> (list: Vec<(Pid, DotSet)>)
        ensures
            rows_from(list@) == self@.rows,
    {
        let mut list: Vec<(Pid, DotSet)> = Vec::new();
        let pids = ascending_keys(&self.matrix);
        for i in 0..pids.len()
            invariant
                forall|p: Pid| #[trigger] pids@.contains(p) <==> self@.rows.contains_key(p),
                forall|p: Pid| #[trigger]
                    rows_from(list@).contains_key(p) <==> pids@.take(i as int).contains(p),
                forall|p: Pid| #[trigger]
                    rows_from(list@).contains_key(p) ==> rows_from(list@)[p] == self@.rows[p],
        {
            let pid: Pid = pids[i];
            assert(pids@.contains(pid));
            let ghost before = list@;
            if let Some(row) = self.matrix.get(&pid) {
                list.push((pid, row.clone()));
                assert(list@.drop_last() =~= before);
                assert(rows_from(list@) == rows_from(before).insert(pid, self@.rows[pid]));
            }
            proof {
                lemma_take_next(pids@, i as int);
            }
        }
        assert(pids@.take(pids@.len() as int) =~= pids@);
        assert(rows_from(list@) =~= self@.rows);
        list
    }

    /// The final dots, in ascending order of the replicas.
    fn final_dot_list(&self) -> (list: Vec<Dot>)
        ensures
            final_dots_from(list@) == self@.final_dots,
    {
        let mut list: Vec<Dot> = Vec::new();
        let pids = ascending_keys(&self.final_dots);
        for i in 0..pids.len()
            invariant
                forall|p: Pid| #[trigger] pids@.contains(p) <==> self@.final_dots.contains_key(p),
                forall|p: Pid| #[trigger]
                    final_dots_from(list@).contains_key(p) <==> pids@.take(i as int).contains(p),
                forall|p: Pid| #[trigger]
                    final_dots_from(list@).contains_key(p) ==> final_dots_from(list@)[p]
                        == self@.final_dots[p],
        {
            let pid: Pid = pids[i];
            assert(pids@.contains(pid));
            let ghost before = list@;
            if let Some(counter) = self.final_dots.get(&pid) {
                list.push(Dot { pid, counter: *counter });
                assert(list@.drop_last() =~= before);
                assert(final_dots_from(list@) == final_dots_from(before).insert(
                    pid,
                    self@.final_dots[pid],
                ));
            }
            proof {
                lemma_take_next(pids@, i as int);
            }
        }
        assert(pids@.take(pids@.len() as int) =~= pids@);
        assert(final_dots_from(list@) =~= self@.final_dots);
        list
    }

    /// Puts a matrix together again.
    pub fn from_parts(parts: MatrixParts) -> (matrix: Self)
        ensures
            matrix@ == parts.whole(),
    {
        let mut matrix = VersionMatrix {
            own_pid: parts.own_pid,
            matrix: HashMap::new(),
            final_dots: HashMap::new(),
        };
        let ghost rows = parts.rows@;
        assert(rows.take(0) =~= Seq::empty());
        assert(matrix@.rows =~= Map::empty());
        for i in 0..parts.rows.len()
            invariant
                rows == parts.rows@,
                matrix@.own_pid == parts.own_pid,
                matrix@.rows == rows_from(rows.take(i as int)),
                matrix@.final_dots == Map::<Pid, Counter>::empty(),
        {
            let ghost before = matrix@.rows;
            proof {
                assert(rows.take(i + 1).drop_last() =~= rows.take(i as int));
                assert(rows.take(i + 1).last() == rows[i as int]);
            }
            let row = &parts.rows[i];
            matrix.matrix.insert(row.0, row.1.clone());
            assert(matrix@.rows =~= before.insert(row.0, row.1@));
        }
        assert(rows.take(rows.len() as int) =~= rows);
        let ghost dots = parts.final_dots@;
        assert(dots.take(0) =~= Seq::empty());
        for i in 0..parts.final_dots.len()
            invariant
                dots == parts.final_dots@,
                matrix@.own_pid == parts.own_pid,
                matrix@.rows == rows_from(rows),
                matrix@.final_dots == final_dots_from(dots.take(i as int)),
        {
            proof {
                assert(dots.take(i + 1).drop_last() =~= dots.take(i as int));
                assert(dots.take(i + 1).last() == dots[i as int]);
            }
            matrix.insert_final_dot(parts.final_dots[i]);
        }
        assert(dots.take(dots.len() as int) =~= dots);
        matrix
    }
}

impl Clone for VersionMatrix {
    fn clone(&self) -> (copy: Self)
        ensures
            copy@ == self@,
    {
        VersionMatrix::from_parts(self.to_parts())
    }
}

/// Whether one of the listed replicas gives `pid` the counter `counter`.
spec fn attained(
    rows: Map<Pid, Map<Pid, Counter>>,
    listed: Seq<Pid>,
    pid: Pid,
    counter: Counter,
) -> bool {
    exists|o: Pid| #[trigger] listed.contains(o) && counter_of(rows[o], pid) == counter
}

/// The identities in an optional list.
pub open spec fn listed(pids: Option<Vec<Pid>>) -> Option<Seq<Pid>> {
    match pids {
        Some(pids) => Some(pids@),
        None => None,
    }
}

/// Nothing changes where nobody leaves.
proof fn lemma_without_none(matrix: MatrixView)
    ensures
        matrix.without(Set::empty()) == matrix,
{
    assert forall|p: Pid| matrix.rows.contains_key(p) implies matrix.rows[p].remove_keys(
        Set::empty(),
    ) == matrix.rows[p] by {
        assert(matrix.rows[p].remove_keys(Set::empty()) =~= matrix.rows[p]);
    }
    assert(matrix.without(Set::empty()).rows =~= matrix.rows);
    assert(matrix.without(Set::empty()).final_dots =~= matrix.final_dots);
}

} // verus!
