//! Change sets posted by the controller, and their wire form.
//!
//! On the wire the updates are not a list of pairs but two sibling arrays,
//! `UpdateOld` and `UpdateNew`, zipped by position.
use crate::endpoint::Endpoint;
use vstd::prelude::*;

verus! {

/// A replacement: `from` goes, `to` comes.
#[derive(Debug, Clone)]
pub struct FromTo<T> {
    pub from: T,
    pub to: T,
}

/// The changes the controller asks for.
#[derive(Debug, Clone)]
pub struct Changes {
    pub create: Vec<Endpoint>,
    pub update: Vec<FromTo<Endpoint>>,
    pub delete: Vec<Endpoint>,
}

/// The model of a change set.
pub struct ChangesView {
    pub create: Seq<Endpoint>,
    pub update: Seq<FromTo<Endpoint>>,
    pub delete: Seq<Endpoint>,
}

impl View for Changes {
    type V = ChangesView;

    open spec fn view(&self) -> ChangesView {
        ChangesView { create: self.create@, update: self.update@, delete: self.delete@ }
    }
}

impl Default for Changes {
    fn default() -> (r: Changes)
        ensures
            r@.create.len() == 0,
            r@.update.len() == 0,
            r@.delete.len() == 0,
    {
        Changes { create: Vec::new(), update: Vec::new(), delete: Vec::new() }
    }
}

/// The updates as the two parallel arrays of the wire.
#[derive(Debug, Clone)]
pub struct UpdatePairs<T> {
    pub old: Vec<T>,
    pub new: Vec<T>,
}

impl<T> Default for UpdatePairs<T> {
    fn default() -> (r: UpdatePairs<T>)
        ensures
            r.old@.len() == 0,
            r.new@.len() == 0,
    {
        UpdatePairs { old: Vec::new(), new: Vec::new() }
    }
}

/// Why a change set could not be read.
#[derive(Debug, Clone, Copy, PartialEq, Eq, Structural)]
pub enum ChangesError {
    /// `UpdateOld` and `UpdateNew` differ in length.
    UpdateLengthMismatch { old: usize, new: usize },
}

impl ChangesError {
    /// A diagnostic for the response body.
    pub fn message(&self) -> (r: String)
        ensures
            r@ == "update arrays length mismatch"@,
    {
        match self {
            ChangesError::UpdateLengthMismatch { .. } => String::from_str(
                "update arrays length mismatch",
            ),
        }
    }
}

pub open spec fn froms<T>(s: Seq<FromTo<T>>) -> Seq<T> {
    s.map_values(|p: FromTo<T>| p.from)
}

pub open spec fn tos<T>(s: Seq<FromTo<T>>) -> Seq<T> {
    s.map_values(|p: FromTo<T>| p.to)
}

/// Splits the pairs into the old and the new array, keeping their order.
pub fn serialize<T>(fts: Vec<FromTo<T>>) -> (r: UpdatePairs<T>)
    ensures
        r.old@ == froms(fts@),
        r.new@ == tos(fts@),
{
    let ghost all = fts@;
    let mut out = UpdatePairs { old: Vec::new(), new: Vec::new() };
    for ft in it: fts.into_iter()
        invariant
            it.seq() == all,
            out.old@ == froms(all.take(it.index() as int)),
            out.new@ == tos(all.take(it.index() as int)),
    {
        out.old.push(ft.from);
        out.new.push(ft.to);
        proof {
            assert(froms(all.take(it.index() + 1)) =~= out.old@);
            assert(tos(all.take(it.index() + 1)) =~= out.new@);
        }
    }
    proof {
        assert(all.take(all.len() as int) =~= all);
    }
    out
}

/// The pairs made of `old[i]` and `new[i]`.
pub open spec fn zip_pairs<T>(old: Seq<T>, new: Seq<T>) -> Seq<FromTo<T>> {
    Seq::new(old.len(), |i: int| FromTo { from: old[i], to: new[i] })
}

/// Zips the old and the new array into pairs by position.
///
/// Fails when the two arrays differ in length.
pub fn deserialize<T>(pairs: UpdatePairs<T>) -> (r: Result<Vec<FromTo<T>>, ChangesError>)
    ensures
        pairs.old@.len() == pairs.new@.len() <==> r is Ok,
        r matches Ok(v) ==> v@ == zip_pairs(pairs.old@, pairs.new@),
        r matches Ok(v) ==> froms(v@) == pairs.old@ && tos(v@) == pairs.new@,
        r matches Err(e) ==> e == (ChangesError::UpdateLengthMismatch {
            old: pairs.old@.len() as usize,
            new: pairs.new@.len() as usize,
        }),
{
    let UpdatePairs { old, new } = pairs;
    if old.len() != new.len() {
        return Err(ChangesError::UpdateLengthMismatch { old: old.len(), new: new.len() });
    }
    let ghost all_old = old@;
    let ghost all_new = new@;
    let mut rest = new;
    let mut out: Vec<FromTo<T>> = Vec::new();
    for f in it: old.into_iter()
        invariant
            it.seq() == all_old,
            all_old.len() == all_new.len(),
            rest@ == all_new.subrange(it.index() as int, all_new.len() as int),
            froms(out@) == all_old.take(it.index() as int),
            tos(out@) == all_new.take(it.index() as int),
    {
        let to = rest.remove(0);
        let ghost prev = out@;
        out.push(FromTo { from: f, to });
        proof {
            assert(rest@ =~= all_new.subrange(it.index() + 1, all_new.len() as int));
            assert(out@.drop_last() =~= prev);
            assert(froms(out@).drop_last() =~= froms(prev));
            assert(all_old.take(it.index() + 1).drop_last() =~= all_old.take(it.index() as int));
            assert(froms(out@).last() == all_old[it.index() as int]);
            assert(froms(out@) =~= all_old.take(it.index() + 1));
            assert(tos(out@) =~= all_new.take(it.index() + 1));
        }
    }
    proof {
        assert(all_old.take(all_old.len() as int) =~= all_old);
        assert(all_new.take(all_new.len() as int) =~= all_new);
        assert forall|i: int| 0 <= i < out@.len() implies out@[i] == zip_pairs(all_old, all_new)[i] by {
            assert(froms(out@)[i] == out@[i].from);
            assert(tos(out@)[i] == out@[i].to);
        }
        assert(out@ =~= zip_pairs(all_old, all_new));
    }
    Ok(out)
}

/// A change set as it stands on the wire.
///
/// `create` is `None` where the controller sent `null` or nothing.
#[derive(Debug, Clone)]
pub struct ChangesWire {
    pub create: Option<Vec<Endpoint>>,
    pub update_old: Vec<Endpoint>,
    pub update_new: Vec<Endpoint>,
    pub delete: Vec<Endpoint>,
}

pub struct ChangesWireView {
    pub create: Option<Seq<Endpoint>>,
    pub update_old: Seq<Endpoint>,
    pub update_new: Seq<Endpoint>,
    pub delete: Seq<Endpoint>,
}

impl View for ChangesWire {
    type V = ChangesWireView;

    open spec fn view(&self) -> ChangesWireView {
        ChangesWireView {
            create: match self.create {
                Some(c) => Some(c@),
                None => None,
            },
            update_old: self.update_old@,
            update_new: self.update_new@,
            delete: self.delete@,
        }
    }
}

/// The change set that a wire form stands for.
pub open spec fn wire_decode(w: ChangesWireView) -> Result<ChangesView, ChangesError> {
    if w.update_old.len() == w.update_new.len() {
        Ok(
            ChangesView {
                create: match w.create {
                    Some(c) => c,
                    None => Seq::empty(),
                },
                update: zip_pairs(w.update_old, w.update_new),
                delete: w.delete,
            },
        )
    } else {
        Err(
            ChangesError::UpdateLengthMismatch {
                old: w.update_old.len() as usize,
                new: w.update_new.len() as usize,
            },
        )
    }
}

/// The wire form of a change set; `create` is always present.
pub open spec fn wire_encode(c: ChangesView) -> ChangesWireView {
    ChangesWireView {
        create: Some(c.create),
        update_old: froms(c.update),
        update_new: tos(c.update),
        delete: c.delete,
    }
}

pub open spec fn changes_result_view(r: Result<Changes, ChangesError>) -> Result<
    ChangesView,
    ChangesError,
> {
    match r {
        Ok(c) => Ok(c@),
        Err(e) => Err(e),
    }
}

impl Changes {
    /// Reads a change set from its wire form.
    pub fn from_wire(w: ChangesWire) -> (r: Result<Changes, ChangesError>)
        ensures
            changes_result_view(r) == wire_decode(w@),
    {
        let ChangesWire { create, update_old, update_new, delete } = w;
        let create = match create {
            Some(c) => c,
            None => Vec::new(),
        };
        match deserialize(UpdatePairs { old: update_old, new: update_new }) {
            Ok(update) => Ok(Changes { create, update, delete }),
            Err(e) => Err(e),
        }
    }

    /// The wire form of this change set.
    pub fn into_wire(self) -> (w: ChangesWire)
        ensures
            w@ == wire_encode(self@),
    {
        let Changes { create, update, delete } = self;
        let pairs = serialize(update);
        ChangesWire { create: Some(create), update_old: pairs.old, update_new: pairs.new, delete }
    }
}

/// Reading back the wire form of a change set gives that change set.
pub proof fn lemma_wire_round_trip(c: ChangesView)
    ensures
        wire_decode(wire_encode(c)) == Ok::<ChangesView, ChangesError>(c),
{
    assert(zip_pairs(froms(c.update), tos(c.update)) =~= c.update);
}

} // verus!
