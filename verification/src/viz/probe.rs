//! The pinned column and what is known of it.

use vstd::prelude::*;

verus! {

/// A column as the generator describes it: its place, the height it aims at,
/// and the rest.
#[derive(Debug)]
pub struct ColumnProbe<S> {
    pub wx: i32,
    pub wz: i32,
    pub h_target: i32,
    pub rest: S,
}

/// The pinned column, its description, the height being inspected, and the
/// density there.
#[derive(Debug)]
pub struct Probe<S, B> {
    pub pinned: Option<(i32, i32)>,
    pub snapshot: Option<ColumnProbe<S>>,
    pub probe_y: i32,
    pub breakdown: Option<B>,
}

impl<S, B> Probe<S, B> {
    /// Description and density are those of the pinned column.
    pub open spec fn wf(&self) -> bool {
        &&& self.pinned is Some <==> self.snapshot is Some
        &&& self.pinned is Some <==> self.breakdown is Some
    }

    pub fn new() -> (p: Self)
        ensures
            p == (Probe::<S, B> { pinned: None, snapshot: None, probe_y: 70, breakdown: None }),
            p.wf(),
    {
        Probe { pinned: None, snapshot: None, probe_y: 70, breakdown: None }
    }

    /// Pin a column: its description is taken, and the density at the height
    /// it aims at.
    pub fn pin<F: Fn(i32, i32) -> ColumnProbe<S>, G: Fn(i32, i32, i32) -> B>(
        &mut self,
        column: F,
        density: G,
        wx: i32,
        wz: i32,
    )
        requires
            call_requires(column, (wx, wz)),
            forall|y: i32| #[trigger] call_requires(density, (wx, y, wz)),
        ensures
            final(self).wf(),
            final(self).pinned == Some((wx, wz)),
            final(self).snapshot matches Some(s) && call_ensures(column, (wx, wz), s)
                && final(self).probe_y == s.h_target,
            final(self).breakdown matches Some(b) && call_ensures(
                density,
                (wx, final(self).probe_y, wz),
                b,
            ),
    {
        let snapshot = column(wx, wz);
        self.probe_y = snapshot.h_target;
        self.snapshot = Some(snapshot);
        self.pinned = Some((wx, wz));
        self.breakdown = Some(density(wx, self.probe_y, wz));
    }

    /// Pin no column.
    pub fn unpin(&mut self)
        ensures
            *final(self) == (Probe::<S, B> {
                pinned: None,
                snapshot: None,
                probe_y: old(self).probe_y,
                breakdown: None,
            }),
            final(self).wf(),
    {
        self.pinned = None;
        self.snapshot = None;
        self.breakdown = None;
    }

    /// Describe the pinned column anew, keeping the height being inspected.
    pub fn refresh<F: Fn(i32, i32) -> ColumnProbe<S>, G: Fn(i32, i32, i32) -> B>(
        &mut self,
        column: F,
        density: G,
    )
        requires
            old(self).wf(),
            forall|x: i32, z: i32| #[trigger] call_requires(column, (x, z)),
            forall|x: i32, y: i32, z: i32| #[trigger] call_requires(density, (x, y, z)),
        ensures
            final(self).wf(),
            final(self).pinned == old(self).pinned,
            final(self).probe_y == old(self).probe_y,
            match old(self).pinned {
                Some(at) => {
                    &&& final(self).snapshot matches Some(s) && call_ensures(
                        column,
                        (at.0, at.1),
                        s,
                    )
                    &&& final(self).breakdown matches Some(b) && call_ensures(
                        density,
                        (at.0, old(self).probe_y, at.1),
                        b,
                    )
                },
                None => *final(self) == *old(self),
            },
    {
        if let Some((wx, wz)) = self.pinned {
            let snapshot = column(wx, wz);
            self.breakdown = Some(density(wx, self.probe_y, wz));
            self.snapshot = Some(snapshot);
        }
    }

    /// Inspect another height: only the density is taken anew.
    pub fn set_y<G: Fn(i32, i32, i32) -> B>(&mut self, density: G, y: i32)
        requires
            old(self).wf(),
            forall|x: i32, z: i32| #[trigger] call_requires(density, (x, y, z)),
        ensures
            final(self).wf(),
            final(self).pinned == old(self).pinned,
            final(self).snapshot == old(self).snapshot,
            final(self).probe_y == y,
            y == old(self).probe_y ==> *final(self) == *old(self),
            y != old(self).probe_y ==> match old(self).pinned {
                Some(at) => final(self).breakdown matches Some(b) && call_ensures(
                    density,
                    (at.0, y, at.1),
                    b,
                ),
                None => final(self).breakdown is None,
            },
    {
        if y != self.probe_y {
            self.probe_y = y;
            if let Some((wx, wz)) = self.pinned {
                self.breakdown = Some(density(wx, y, wz));
            }
        }
    }

    /// A frame of the panel on the pinned column: it may be let go of, and the
    /// height being inspected is now `y`. Without a pinned column there is no
    /// panel.
    pub fn panel<G: Fn(i32, i32, i32) -> B>(&mut self, density: G, unpin: bool, y: i32)
        requires
            old(self).wf(),
            forall|x: i32, z: i32| #[trigger] call_requires(density, (x, y, z)),
        ensures
            final(self).wf(),
            match old(self).pinned {
                None => *final(self) == *old(self),
                Some(at) => {
                    &&& final(self).probe_y == y
                    &&& unpin ==> final(self).pinned is None
                    &&& !unpin ==> final(self).pinned == old(self).pinned
                        && final(self).snapshot == old(self).snapshot
                    &&& !unpin && y == old(self).probe_y ==> final(self).breakdown == old(
                        self,
                    ).breakdown
                    &&& !unpin && y != old(self).probe_y ==> (final(self).breakdown matches Some(b)
                        && call_ensures(density, (at.0, y, at.1), b))
                },
            },
    {
        if self.snapshot.is_some() {
            if unpin {
                self.unpin();
            }
            self.set_y(density, y);
        }
    }
}

} // verus!
