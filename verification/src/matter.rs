//! Shared resources: a [`SharedMatter`] is a value behind a reader-writer
//! lock that several owners can reach, and a [`MatterVault`] files shared
//! values of one type under string specifiers.
use vstd::prelude::*;
use vstd::rwlock::{RwLock, RwLockPredicate};
use std::sync::Arc;

verus! {

/// The lock predicate of shared matter: every value is admitted.
pub struct AnyValue;

impl<T> RwLockPredicate<T> for AnyValue {
    open spec fn inv(self, v: T) -> bool {
        true
    }
}

/// Another handle on the same allocation (`Arc::clone` of std, documented as
/// making a new pointer to the same allocation, which Verus sees as an equal
/// value).
#[verifier::external_body]
fn arc_share<T>(a: &Arc<T>) -> (b: Arc<T>)
    ensures
        b == *a,
{
    a.clone()
}

/// A value that several owners share; reads and writes go through a
/// reader-writer lock.
pub struct SharedMatter<T> {
    lock: Arc<RwLock<T, AnyValue>>,
    initial: Ghost<T>,
}

impl<T> SharedMatter<T> {
    /// The value the shared matter was created with, before any write.
    pub closed spec fn initial_value(&self) -> T {
        self.initial@
    }

    /// Puts `t` behind a fresh lock.
    pub fn new(t: T) -> (matter: Self)
        ensures
            matter.initial_value() == t,
    {
        let ghost g = t;
        SharedMatter { lock: Arc::new(RwLock::new(t, Ghost(AnyValue))), initial: Ghost(g) }
    }

    /// Runs `callback` on the value under a read lock and returns what it
    /// returns. Other handles may have changed the value since it was shared,
    /// so the result is one that `callback` gives for some value.
    pub fn read<F, R>(&self, callback: F) -> (r: R)
        where
            F: FnOnce(&T) -> R,
        requires
            forall|t: &T| call_requires(callback, (t,)),
        ensures
            exists|t: &T| call_ensures(callback, (t,), r),
    {
        let handle = self.lock.acquire_read();
        let r = callback(handle.borrow());
        handle.release_read();
        r
    }

    /// Runs `callback` on the value under a write lock and keeps what it
    /// leaves there; returns what `callback` returns.
    pub fn write<F, R>(&self, callback: F) -> (r: R)
        where
            F: FnOnce(&mut T) -> R,
        requires
            forall|t: &mut T| call_requires(callback, (t,)),
        ensures
            exists|t: &mut T| call_ensures(callback, (t,), r),
    {
        let (mut value, handle) = self.lock.acquire_write();
        let r = callback(&mut value);
        handle.release_write(value);
        r
    }

    /// Another handle on the same shared value.
    pub fn share(&self) -> (other: Self)
        ensures
            other == *self,
    {
        SharedMatter { lock: arc_share(&self.lock), initial: self.initial }
    }
}

/// Why a vault could not hand out a value.
#[derive(Debug, PartialEq, Eq, Structural)]
pub enum MatterError {
    /// Nothing of the requested type was ever filed in the vault.
    DataLabelDoesNotExist,
    /// Values of the type were filed, but none under this specifier.
    SpecifierDoesNotExist,
}

/// What a vault hands out after a value was filed: sharing the specifier
/// gives the handle that filing returned, and the other specifiers keep
/// what they had.
pub proof fn lemma_share_after_add<T>(
    filed: Map<Seq<char>, SharedMatter<T>>,
    specifier: Seq<char>,
    handle: SharedMatter<T>,
    other: Seq<char>,
)
    requires
        other != specifier,
    ensures
        filed.insert(specifier, handle).dom().contains(specifier),
        filed.insert(specifier, handle)[specifier] == handle,
        !filed.insert(specifier, handle).is_empty(),
        filed.insert(specifier, handle).dom().contains(other) == filed.dom().contains(other),
        filed.dom().contains(other) ==> filed.insert(specifier, handle)[other] == filed[other],
{
    assert(filed.insert(specifier, handle).dom().contains(specifier));
}

/// Shared values of one type, filed under string specifiers.
pub struct MatterVault<T> {
    matter: Vec<(String, SharedMatter<T>)>,
}

impl<T> View for MatterVault<T> {
    type V = Map<Seq<char>, SharedMatter<T>>;

    /// The filed values, by specifier.
    closed spec fn view(&self) -> Map<Seq<char>, SharedMatter<T>> {
        Map::new(
            |k: Seq<char>| exists|i: int| 0 <= i < self.matter.len() && self.matter@[i].0@ == k,
            |k: Seq<char>|
                self.matter@[choose|i: int| 0 <= i < self.matter.len() && self.matter@[i].0@ == k].1,
        )
    }
}

impl<T> MatterVault<T> {
    /// No specifier is filed twice.
    pub closed spec fn wf(&self) -> bool {
        forall|i: int, j: int|
            0 <= i < j < self.matter.len() ==> self.matter@[i].0@ != self.matter@[j].0@
    }

    /// The value at each position is the one the view files under its
    /// specifier.
    proof fn lemma_view(&self)
        requires
            self.wf(),
        ensures
            forall|i: int|
                0 <= i < self.matter.len() ==> #[trigger] self@.dom().contains(self.matter@[i].0@)
                    && self@[self.matter@[i].0@] == self.matter@[i].1,
    {
        assert forall|i: int| 0 <= i < self.matter.len() implies #[trigger] self@.dom().contains(
            self.matter@[i].0@,
        ) && self@[self.matter@[i].0@] == self.matter@[i].1 by {
            let k = self.matter@[i].0@;
            let j = choose|j: int| 0 <= j < self.matter.len() && self.matter@[j].0@ == k;
            if j != i {
                if j < i {
                    assert(self.matter@[j].0@ != self.matter@[i].0@);
                } else {
                    assert(self.matter@[i].0@ != self.matter@[j].0@);
                }
            }
        }
    }

    /// Creates an empty vault.
    pub fn new() -> (vault: Self)
        ensures
            vault.wf(),
            vault@ == Map::<Seq<char>, SharedMatter<T>>::empty(),
    {
        let vault = MatterVault { matter: Vec::new() };
        assert(vault@ =~= Map::<Seq<char>, SharedMatter<T>>::empty());
        vault
    }

    /// The position of the value filed under `specifier`, if there is one.
    fn position(&self, specifier: &str) -> (pos: Option<usize>)
        requires
            self.wf(),
        ensures
            match pos {
                Some(i) => i < self.matter.len() && self.matter@[i as int].0@ == specifier@
                    && self@.dom().contains(specifier@) && self@[specifier@] == self.matter@[i as int].1,
                None => !self@.dom().contains(specifier@),
            },
    {
        proof {
            self.lemma_view();
        }
        let key = specifier.to_owned();
        let mut i: usize = 0;
        while i < self.matter.len()
            invariant
                self.wf(),
                i <= self.matter.len(),
                key@ == specifier@,
                forall|k: int| 0 <= k < i ==> self.matter@[k].0@ != specifier@,
            decreases self.matter.len() - i,
        {
            if self.matter[i].0 == key {
                proof {
                    self.lemma_view();
                }
                return Some(i);
            }
            i = i + 1;
        }
        None
    }

    /// The shared value filed under `specifier`, with the errors of the
    /// vault's lookups.
    fn lookup(&self, specifier: &str) -> (found: Result<&SharedMatter<T>, MatterError>)
        requires
            self.wf(),
        ensures
            match found {
                Ok(m) => self@.dom().contains(specifier@) && *m == self@[specifier@],
                Err(MatterError::DataLabelDoesNotExist) => self@.is_empty(),
                Err(MatterError::SpecifierDoesNotExist) => !self@.is_empty() && !self@.dom().contains(
                    specifier@,
                ),
            },
            found is Ok <==> self@.dom().contains(specifier@),
    {
        proof {
            self.lemma_view();
        }
        if self.matter.len() == 0 {
            assert(self@ =~= Map::<Seq<char>, SharedMatter<T>>::empty());
            return Err(MatterError::DataLabelDoesNotExist);
        }
        assert(self@.dom().contains(self.matter@[0].0@));
        match self.position(specifier) {
            Some(i) => Ok(&self.matter[i].1),
            None => Err(MatterError::SpecifierDoesNotExist),
        }
    }

    /// Runs `callback` on the value filed under `specifier`.
    ///
    /// Fails with `DataLabelDoesNotExist` when nothing was filed in the vault
    /// and with `SpecifierDoesNotExist` when nothing was filed under
    /// `specifier`.
    pub fn read<F, R>(&self, specifier: &str, callback: F) -> (r: Result<R, MatterError>)
        where
            F: FnOnce(&T) -> R,
        requires
            self.wf(),
            self@.dom().contains(specifier@) ==> forall|t: &T| call_requires(callback, (t,)),
        ensures
            r is Ok <==> self@.dom().contains(specifier@),
            r matches Ok(v) ==> exists|t: &T| #[trigger] call_ensures(callback, (t,), v),
            r matches Err(e) ==> e == (if self@.is_empty() {
                MatterError::DataLabelDoesNotExist
            } else {
                MatterError::SpecifierDoesNotExist
            }),
    {
        match self.lookup(specifier) {
            Ok(m) => {
                let ghost cb = callback;
                let v = m.read(callback);
                assert(exists|t: &T| #[trigger] call_ensures(cb, (t,), v));
                let r: Result<R, MatterError> = Ok(v);
                proof {
                    let t = choose|t: &T| #[trigger] call_ensures(cb, (t,), v);
                    assert(r->Ok_0 == v);
                    assert(call_ensures(cb, (t,), r->Ok_0));
                }
                r
            },
            Err(e) => Err(e),
        }
    }

    /// Runs `callback` with write access on the value filed under
    /// `specifier`; fails as [`MatterVault::read`] does.
    pub fn write<F, R>(&self, specifier: &str, callback: F) -> (r: Result<R, MatterError>)
        where
            F: FnOnce(&mut T) -> R,
        requires
            self.wf(),
            self@.dom().contains(specifier@) ==> forall|t: &mut T| call_requires(callback, (t,)),
        ensures
            r is Ok <==> self@.dom().contains(specifier@),
            r matches Ok(v) ==> exists|t: &mut T| #[trigger] call_ensures(callback, (t,), v),
            r matches Err(e) ==> e == (if self@.is_empty() {
                MatterError::DataLabelDoesNotExist
            } else {
                MatterError::SpecifierDoesNotExist
            }),
    {
        match self.lookup(specifier) {
            Ok(m) => {
                let ghost cb = callback;
                let v = m.write(callback);
                assert(exists|t: &mut T| #[trigger] call_ensures(cb, (t,), v));
                let r: Result<R, MatterError> = Ok(v);
                proof {
                    let t = choose|t: &mut T| #[trigger] call_ensures(cb, (t,), v);
                    assert(r->Ok_0 == v);
                    assert(call_ensures(cb, (t,), r->Ok_0));
                }
                r
            },
            Err(e) => Err(e),
        }
    }

    /// A handle on the value filed under `specifier`; fails as
    /// [`MatterVault::read`] does.
    pub fn share(&self, specifier: &str) -> (r: Result<SharedMatter<T>, MatterError>)
        requires
            self.wf(),
        ensures
            match r {
                Ok(m) => self@.dom().contains(specifier@) && m == self@[specifier@],
                Err(e) => e == (if self@.is_empty() {
                    MatterError::DataLabelDoesNotExist
                } else {
                    MatterError::SpecifierDoesNotExist
                }) && !self@.dom().contains(specifier@),
            },
    {
        match self.lookup(specifier) {
            Ok(m) => Ok(m.share()),
            Err(e) => Err(e),
        }
    }

    /// Files `value` under `specifier`, replacing what was filed there, and
    /// returns a handle on it.
    pub fn add(&mut self, specifier: &str, value: T) -> (r: Result<SharedMatter<T>, MatterError>)
        requires
            old(self).wf(),
        ensures
            final(self).wf(),
            r is Ok,
            r matches Ok(m) ==> final(self)@ == old(self)@.insert(specifier@, m),
            r matches Ok(m) ==> m.initial_value() == value,
    {
        let shared_matter = SharedMatter::new(value);
        let stored = shared_matter.share();
        let ghost before = self.matter@;
        match self.position(specifier) {
            Some(i) => {
                let key = specifier.to_owned();
                self.matter[i] = (key, stored);
                proof {
                    assert(self.wf()) by {
                        assert forall|a: int, b: int| 0 <= a < b < self.matter.len() implies self.matter@[a].0@
                            != self.matter@[b].0@ by {
                            assert(self.matter@[a].0@ == before[a].0@);
                            assert(self.matter@[b].0@ == before[b].0@);
                        }
                    }
                    self.lemma_view();
                    let want = old(self)@.insert(specifier@, shared_matter);
                    assert forall|k: Seq<char>| self@.dom().contains(k) <==> want.dom().contains(k) by {
                        if self@.dom().contains(k) {
                            let j = choose|j: int| 0 <= j < self.matter.len() && self.matter@[j].0@ == k;
                            assert(before[j].0@ == k);
                            old(self).lemma_view();
                            assert(old(self)@.dom().contains(old(self).matter@[j].0@));
                        }
                        if old(self)@.dom().contains(k) {
                            let j = choose|j: int| 0 <= j < before.len() && before[j].0@ == k;
                            assert(self@.dom().contains(self.matter@[j].0@));
                        }
                    }
                    assert forall|k: Seq<char>| #[trigger] self@.dom().contains(k) implies self@[k] == want[k] by {
                        let j = choose|j: int| 0 <= j < self.matter.len() && self.matter@[j].0@ == k;
                        assert(self@[self.matter@[j].0@] == self.matter@[j].1);
                        if j != i {
                            old(self).lemma_view();
                            assert(old(self)@[old(self).matter@[j].0@] == before[j].1);
                        }
                    }
                    assert(self@ =~= want);
                }
            },
            None => {
                let key = specifier.to_owned();
                self.matter.push((key, stored));
                proof {
                    assert(self.wf()) by {
                        assert forall|a: int, b: int| 0 <= a < b < self.matter.len() implies self.matter@[a].0@
                            != self.matter@[b].0@ by {
                            if b == before.len() {
                                old(self).lemma_view();
                                assert(old(self)@.dom().contains(before[a].0@));
                            }
                        }
                    }
                    self.lemma_view();
                    old(self).lemma_view();
                    let want = old(self)@.insert(specifier@, shared_matter);
                    let n = before.len() as int;
                    assert forall|k: Seq<char>| self@.dom().contains(k) <==> want.dom().contains(k) by {
                        if self@.dom().contains(k) {
                            let j = choose|j: int| 0 <= j < self.matter.len() && self.matter@[j].0@ == k;
                            if j < n {
                                assert(old(self)@.dom().contains(old(self).matter@[j].0@));
                            }
                        }
                        if old(self)@.dom().contains(k) {
                            let j = choose|j: int| 0 <= j < before.len() && before[j].0@ == k;
                            assert(self@.dom().contains(self.matter@[j].0@));
                        }
                        if k == specifier@ {
                            assert(self@.dom().contains(self.matter@[n].0@));
                        }
                    }
                    assert forall|k: Seq<char>| #[trigger] self@.dom().contains(k) implies self@[k] == want[k] by {
                        let j = choose|j: int| 0 <= j < self.matter.len() && self.matter@[j].0@ == k;
                        assert(self@[self.matter@[j].0@] == self.matter@[j].1);
                        if j < n {
                            assert(old(self)@[old(self).matter@[j].0@] == before[j].1);
                        }
                    }
                    assert(self@ =~= want);
                }
            },
        }
        Ok(shared_matter)
    }
}

} // verus!
