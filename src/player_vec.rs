//! A dense container keyed by player number `1..=len`.
use vstd::prelude::*;

verus! {

/// Players are numbered from 1.
pub type PlayerId = usize;

/// One value per player; player `id` sits at position `id - 1`.
pub struct PlayerIndexedVector<T> {
    data: Vec<T>,
}

impl<T> View for PlayerIndexedVector<T> {
    type V = Seq<T>;

    closed spec fn view(&self) -> Seq<T> {
        self.data@
    }
}

impl<T> PlayerIndexedVector<T> {
    /// Whether `id` names a player of this container.
    pub open spec fn has_id(&self, id: int) -> bool {
        1 <= id <= self@.len()
    }

    /// The value of player `id`.
    pub open spec fn at(&self, id: int) -> T {
        self@[id - 1]
    }

    /// A container holding `data`, the first value for player 1.
    pub fn from_vec(data: Vec<T>) -> (r: Self)
        ensures
            r@ == data@,
    {
        PlayerIndexedVector { data }
    }

    /// A container of `player_amount` copies of `value`.
    pub fn new(player_amount: usize, value: T) -> (r: Self)
        where
            T: Copy,
        ensures
            r@.len() == player_amount,
            forall|i: int| 0 <= i < player_amount ==> r@[i] == value,
    {
        let mut data: Vec<T> = Vec::new();
        let mut i: usize = 0;
        while i < player_amount
            invariant
                i <= player_amount,
                data@.len() == i,
                forall|j: int| 0 <= j < i ==> data@[j] == value,
            decreases player_amount - i,
        {
            data.push(value);
            i = i + 1;
        }
        PlayerIndexedVector { data }
    }

    pub fn len(&self) -> (r: usize)
        ensures
            r == self@.len(),
    {
        self.data.len()
    }

    pub fn into_vec(self) -> (r: Vec<T>)
        ensures
            r@ == self@,
    {
        self.data
    }

    /// The value of player `id`.
    pub fn get(&self, id: PlayerId) -> (r: &T)
        requires
            self.has_id(id as int),
        ensures
            *r == self.at(id as int),
    {
        &self.data[id - 1]
    }

    /// Replaces the value of player `id`.
    pub fn set(&mut self, id: PlayerId, value: T)
        requires
            old(self).has_id(id as int),
        ensures
            final(self)@ == old(self)@.update(id - 1, value),
    {
        self.data.set(id - 1, value);
    }

    /// Each player number with its value, in increasing order of number.
    pub fn iter(&self) -> (r: Vec<(PlayerId, T)>)
        where
            T: Copy,
        ensures
            r@.len() == self@.len(),
            forall|i: int| 0 <= i < r@.len() ==> #[trigger] r@[i] == ((i + 1) as usize, self@[i]),
    {
        let mut r: Vec<(PlayerId, T)> = Vec::new();
        let mut i: usize = 0;
        while i < self.data.len()
            invariant
                i <= self@.len(),
                r@.len() == i,
                forall|j: int| 0 <= j < i ==> #[trigger] r@[j] == ((j + 1) as usize, self@[j]),
            decreases self@.len() - i,
        {
            r.push((i + 1, self.data[i]));
            i = i + 1;
        }
        r
    }

    /// The player numbers `1..=len`.
    pub fn iter_player_ids(&self) -> (r: Vec<PlayerId>)
        ensures
            r@.len() == self@.len(),
            forall|i: int| 0 <= i < r@.len() ==> r@[i] == i + 1,
    {
        let mut r: Vec<PlayerId> = Vec::new();
        let mut i: usize = 0;
        while i < self.data.len()
            invariant
                i <= self@.len(),
                r@.len() == i,
                forall|j: int| 0 <= j < i ==> r@[j] == j + 1,
            decreases self@.len() - i,
        {
            r.push(i + 1);
            i = i + 1;
        }
        r
    }

    /// The container of `f` applied to each value.
    pub fn map<E, F: Fn(&T) -> E>(&self, f: F) -> (r: PlayerIndexedVector<E>)
        requires
            forall|i: int| 0 <= i < self@.len() ==> f.requires((&self@[i],)),
        ensures
            r@.len() == self@.len(),
            forall|i: int| 0 <= i < self@.len() ==> f.ensures((&self@[i],), r@[i]),
    {
        let mut out: Vec<E> = Vec::new();
        let mut i: usize = 0;
        while i < self.data.len()
            invariant
                i <= self@.len(),
                out@.len() == i,
                forall|j: int| 0 <= j < self@.len() ==> f.requires((&self@[j],)),
                forall|j: int| 0 <= j < i ==> f.ensures((&self@[j],), out@[j]),
            decreases self@.len() - i,
        {
            let e = f(&self.data[i]);
            out.push(e);
            i = i + 1;
        }
        PlayerIndexedVector { data: out }
    }

    /// The container of `f` applied to each value, consuming this one.
    pub fn mapped<E, F: Fn(T) -> E>(self, f: F) -> (r: PlayerIndexedVector<E>)
        requires
            forall|i: int| 0 <= i < self@.len() ==> f.requires((self@[i],)),
        ensures
            r@.len() == self@.len(),
            forall|i: int| 0 <= i < self@.len() ==> f.ensures((self@[i],), r@[i]),
    {
        let ghost orig = self@;
        let mut rest: Vec<T> = self.data;
        let mut out: Vec<E> = Vec::new();
        while rest.len() > 0
            invariant
                out@.len() + rest@.len() == orig.len(),
                rest@ == orig.subrange(out@.len() as int, orig.len() as int),
                forall|j: int| 0 <= j < orig.len() ==> f.requires((orig[j],)),
                forall|j: int| 0 <= j < out@.len() ==> f.ensures((orig[j],), out@[j]),
            decreases rest@.len(),
        {
            let item = rest.remove(0);
            out.push(f(item));
        }
        PlayerIndexedVector { data: out }
    }
}

} // verus!
