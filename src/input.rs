//! Paddle steering: the set of keys held down, kept from press and release
//! events, and the velocity it gives.
use vstd::prelude::*;

verus! {

/// A key as the game sees it.
#[derive(Clone, Copy, Debug, PartialEq, Eq, Structural)]
pub enum Key {
    /// Moves the paddle left.
    Left,
    /// Moves the paddle right.
    Right,
    /// Ends the game.
    Quit,
    /// Any other key, by its code.
    Other(u32),
}

/// What the game loop does after a key event.
#[derive(Clone, Copy, Debug, PartialEq, Eq, Structural)]
pub enum Action {
    Continue,
    Quit,
}

/// The keys held down.
pub struct HeldKeys {
    keys: Vec<Key>,
}

impl View for HeldKeys {
    type V = Set<Key>;

    closed spec fn view(&self) -> Set<Key> {
        self.keys@.to_set()
    }
}

/// The horizontal velocity that the held keys `held` give: one unit per
/// second towards each held direction key.
pub open spec fn velocity_of(held: Set<Key>) -> (int, int) {
    ((if held.contains(Key::Right) {
        1int
    } else {
        0int
    }) - (if held.contains(Key::Left) {
        1int
    } else {
        0int
    }), 0int)
}

impl HeldKeys {
    /// No key is held twice.
    pub closed spec fn wf(&self) -> bool {
        self.keys@.no_duplicates()
    }

    pub fn new() -> (r: HeldKeys)
        ensures
            r.wf(),
            r@ == Set::<Key>::empty(),
    {
        let r = HeldKeys { keys: Vec::new() };
        assert(r@ =~= Set::<Key>::empty());
        r
    }

    /// Where `key` is held, if it is.
    fn position(&self, key: Key) -> (r: Option<usize>)
        ensures
            match r {
                Some(i) => i < self.keys@.len() && self.keys@[i as int] == key,
                None => !self@.contains(key),
            },
    {
        let mut i: usize = 0;
        while i < self.keys.len()
            invariant
                i <= self.keys@.len(),
                forall|j: int| 0 <= j < i ==> self.keys@[j] != key,
            decreases self.keys@.len() - i,
        {
            if self.keys[i] == key {
                return Some(i);
            }
            i = i + 1;
        }
        None
    }

    pub fn is_held(&self, key: Key) -> (r: bool)
        ensures
            r == self@.contains(key),
    {
        self.position(key).is_some()
    }

    /// Records that `key` went down (`pressed`) or up, and says whether the
    /// game goes on: any event of the quit key ends it.
    pub fn handle(&mut self, key: Key, pressed: bool) -> (r: Action)
        requires
            old(self).wf(),
        ensures
            final(self).wf(),
            final(self)@ == if pressed {
                old(self)@.insert(key)
            } else {
                old(self)@.remove(key)
            },
            r == if key == Key::Quit {
                Action::Quit
            } else {
                Action::Continue
            },
    {
        let found = self.position(key);
        let ghost o = old(self).keys@;
        if pressed {
            if found.is_none() {
                self.keys.push(key);
                proof {
                    o.lemma_push_to_set_commute(key);
                    assert(forall|j: int| 0 <= j < o.len() ==> o[j] != key);
                }
            } else {
                assert(self@ =~= old(self)@.insert(key));
            }
        } else {
            match found {
                Some(i) => {
                    self.keys.remove(i);
                    proof {
                        let n = self.keys@;
                        assert forall|x: Key| n.contains(x) <==> (o.contains(x) && x != key) by {
                            if n.contains(x) {
                                let j = choose|j: int| 0 <= j < n.len() && n[j] == x;
                                if j < i {
                                    assert(o[j] == x);
                                } else {
                                    assert(o[j + 1] == x);
                                }
                            }
                            if o.contains(x) && x != key {
                                let j = choose|j: int| 0 <= j < o.len() && o[j] == x;
                                if j < i {
                                    assert(n[j] == x);
                                } else {
                                    assert(n[j - 1] == x);
                                }
                            }
                        }
                        assert(self@ =~= old(self)@.remove(key));
                        assert forall|a: int, b: int| 0 <= a < b < n.len() implies n[a]
                            != n[b] by {
                            let a2 = if a < i {
                                a
                            } else {
                                a + 1
                            };
                            let b2 = if b < i {
                                b
                            } else {
                                b + 1
                            };
                            assert(n[a] == o[a2] && n[b] == o[b2]);
                        }
                    }
                },
                None => {
                    assert(self@ =~= old(self)@.remove(key));
                },
            }
        }
        if key == Key::Quit {
            Action::Quit
        } else {
            Action::Continue
        }
    }

    /// The paddle's velocity, in units per second along each axis.
    pub fn velocity(&self) -> (r: (i8, i8))
        ensures
            r.0 == velocity_of(self@).0,
            r.1 == velocity_of(self@).1,
    {
        let mut x: i8 = 0;
        if self.is_held(Key::Left) {
            x = x - 1;
        }
        if self.is_held(Key::Right) {
            x = x + 1;
        }
        (x, 0)
    }
}

} // verus!
