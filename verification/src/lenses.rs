//! The ROS 2 lenses a recording applies to its message chunks.

use re_chunk::Chunk;
use re_lenses::{Lens, LensBuilderError, Lenses, OutputMode, Runtime};
use vstd::prelude::*;

use crate::chunks::{
    chunk_archetypes, chunk_bytes, chunk_columns, chunk_entity, chunk_kinds, chunk_rows,
    chunk_slots, chunk_times,
};
use crate::columns::{keeps_messages, raw_component};
use crate::config::{Representation, Representations, Unmatched};
use crate::text::{same_text, texts, without_prefix};

verus! {

/// A lens, which derives archetypes from one component.
#[verifier::external_type_specification]
#[verifier::external_body]
pub struct ExLens(Lens);

/// A collection of lenses, with what it forwards besides what they derive.
#[verifier::external_type_specification]
#[verifier::external_body]
pub struct ExLenses(Lenses);

/// Why a lens could not be built.
#[verifier::external_type_specification]
#[verifier::external_body]
pub struct ExLensBuilderError(LensBuilderError);

/// What lenses are evaluated with.
#[verifier::external_type_specification]
#[verifier::external_body]
pub struct ExRuntime(Runtime);

/// What is forwarded of a chunk besides what the lenses derive from it.
#[derive(Clone, Copy, Debug, PartialEq, Eq, Structural)]
pub enum LensMode {
    /// Every column.
    ForwardAll,
    /// Every column no lens consumed.
    ForwardUnmatched,
    /// Nothing.
    DropUnmatched,
}

/// What a recording forwards besides what its lenses derive; `None` if it applies none.
pub open spec fn mode_for(
    representations: Set<Representation>,
    unmatched: Unmatched,
) -> Option<LensMode> {
    if !representations.contains(Representation::Lenses) {
        None
    } else if representations.contains(Representation::Reflected) {
        Some(LensMode::ForwardAll)
    } else {
        match unmatched {
            Unmatched::Keep => Some(LensMode::ForwardUnmatched),
            Unmatched::Drop => Some(LensMode::DropUnmatched),
        }
    }
}

/// What a recording forwards besides what its lenses derive.
///
/// When the reflected form is also kept, the lenses forward the struct column alongside
/// what they derive, so one chunk carries both. Otherwise only the outputs are forwarded,
/// plus the struct column of any topic no lens matched, unless the recording asked for
/// [`Unmatched::Drop`]. The blob column is no lens's input and is forwarded in every mode
/// but that one, in which bytes that are kept for their own sake are written apart.
pub fn lens_mode(representations: &Representations, unmatched: Unmatched) -> (r: Option<LensMode>)
    ensures
        r == mode_for(representations@, unmatched),
{
    if !representations.contains(&Representation::Lenses) {
        return None;
    }
    // The reflected form was asked for in its own right, so it is forwarded whether or not
    // a lens consumed it.
    if representations.contains(&Representation::Reflected) {
        return Some(LensMode::ForwardAll);
    }
    match unmatched {
        // Nothing is lost: a topic no lens matched keeps its struct.
        Unmatched::Keep => Some(LensMode::ForwardUnmatched),
        // Only what the lenses derived, so the recording can be stacked as a layer on top
        // of one that already holds the messages.
        Unmatched::Drop => Some(LensMode::DropUnmatched),
    }
}

/// The component a lens takes as input.
pub uninterp spec fn lens_input(lens: Lens) -> Seq<char>;

/// The components the lenses of a collection take as input.
pub uninterp spec fn lens_inputs(lenses: Lenses) -> Set<Seq<char>>;

/// What a collection of lenses forwards.
pub uninterp spec fn forwarded(lenses: Lenses) -> LensMode;

/// The components a lens writes; one that changes its input in place writes that.
pub uninterp spec fn lens_outputs(lens: Lens) -> Set<Seq<char>>;

/// The components the lenses of a collection write.
pub uninterp spec fn written_by(lenses: Lenses) -> Set<Seq<char>>;

/// Whether a lens comes to an end on every chunk that is [`manageable`] by what it takes as input:
/// what it derives of one can be counted, and it does not panic.
pub uninterp spec fn copes(lens: Lens) -> bool;

/// Whether every lens of a collection [`copes`].
pub uninterp spec fn all_cope(lenses: Lenses) -> bool;

/// Whether this is what applying lenses to a chunk can come to.
pub uninterp spec fn made_by(
    lenses: Lenses,
    chunk: Chunk,
    runtime: Runtime,
    derived: Seq<Derived>,
) -> bool;

/// The components some lenses take as input.
pub open spec fn inputs_of(lenses: Seq<Lens>) -> Set<Seq<char>> {
    lenses.map_values(|lens: Lens| lens_input(lens)).to_set()
}

/// Whether no lens of a list writes a component that messages are kept under.
pub open spec fn all_apart(lenses: Seq<Lens>) -> bool {
    forall|i: int, component: Seq<char>|
        0 <= i < lenses.len() && #[trigger] lens_outputs(lenses[i]).contains(component)
            ==> !keeps_messages(component)
}

/// Whether every lens of a list [`copes`].
pub open spec fn each_copes(lenses: Seq<Lens>) -> bool {
    forall|i: int| 0 <= i < lenses.len() ==> copes(#[trigger] lenses[i])
}

/// The most bytes that messages can take up for lenses to be applied to them. The lens that
/// derives the most lists four voxels for a byte, in a list that counts up to `0x7fff_ffff`.
pub const LENS_BYTES: usize = 0x1fff_ffff;

/// The most rows that lenses can be applied to. A message that is serialized takes up at least
/// four bytes.
pub const LENS_ROWS: usize = 0x07ff_ffff;

/// Whether lenses can be applied to a chunk: it has few enough rows, and the messages in the
/// columns of structs that are taken as input are small enough. One that carries no such column
/// can have any size.
pub open spec fn manageable(inputs: Set<Seq<char>>, chunk: Chunk) -> bool {
    forall|component: Seq<char>|
        #![trigger chunk_columns(chunk).contains_key(component)]
        chunk_columns(chunk).contains_key(component) && inputs.contains(component) && component
            != raw_component() ==> {
            &&& chunk_rows(chunk) <= LENS_ROWS
            &&& chunk_bytes(chunk)[component] <= LENS_BYTES
        }
}

/// The components the ROS 2 lenses take as input: the reflected messages of these types.
pub open spec fn ros2_inputs() -> Set<Seq<char>> {
    set![
        "sensor_msgs.msg.CameraInfo:message"@,
        "rcl_interfaces.msg.Log:message"@,
        "sensor_msgs.msg.MagneticField:message"@,
        "nav_msgs.msg.OccupancyGrid:message"@,
        "geometry_msgs.msg.PoseStamped:message"@,
        "std_msgs.msg.String:message"@,
        "nav2_msgs.msg.VoxelGrid:message"@,
    ]
}

/// Calls `re_lenses::semantic::ros2msg::all`: every lens Rerun has for ROS 2 messages. They
/// write archetypes, never a component that messages are kept under. Every one of them is built
/// from constants, among them the selectors it reads its fields by, so building them succeeds.
/// The texts and lists they derive are counted in 31 bits, which is enough for what they derive
/// of a [`manageable`] chunk; what they cannot read they fail on.
#[verifier::external_body]
fn ros2_lenses() -> (r: Result<Vec<Lens>, LensBuilderError>)
    ensures
        r is Ok,
        inputs_of(r->Ok_0@) == ros2_inputs(),
        all_apart(r->Ok_0@),
        each_copes(r->Ok_0@),
{
    re_lenses::semantic::ros2msg::all()
}

/// Calls [`Lens::input`]: the component the lens takes as input.
#[verifier::external_body]
fn input_of(lens: &Lens) -> (r: String)
    ensures
        r@ == lens_input(*lens),
{
    lens.input().to_string()
}

/// Calls [`Lenses::new`]: a collection of no lenses, forwarding as asked.
#[verifier::external_body]
fn no_lenses(mode: LensMode) -> (r: Lenses)
    ensures
        lens_inputs(r) == Set::<Seq<char>>::empty(),
        written_by(r) == Set::<Seq<char>>::empty(),
        all_cope(r),
        forwarded(r) == mode,
{
    Lenses::new(
        match mode {
            LensMode::ForwardAll => OutputMode::ForwardAll,
            LensMode::ForwardUnmatched => OutputMode::ForwardUnmatched,
            LensMode::DropUnmatched => OutputMode::DropUnmatched,
        },
    )
}

/// Calls [`Lenses::add_lens`]: one more lens, and nothing else changes.
#[verifier::external_body]
fn add_lens(lenses: Lenses, lens: Lens) -> (r: Lenses)
    ensures
        lens_inputs(r) == lens_inputs(lenses).insert(lens_input(lens)),
        written_by(r) == written_by(lenses).union(lens_outputs(lens)),
        all_cope(r) == (all_cope(lenses) && copes(lens)),
        forwarded(r) == forwarded(lenses),
{
    lenses.add_lens(lens)
}

/// The ROS 2 lenses a recording applies, and what they consume.
pub struct LensSet {
    lenses: Lenses,
    /// The reflected message types some lens takes as input. A topic whose type is not
    /// among them is one no lens matches.
    inputs: Vec<String>,
    /// Whether the struct of a topic no lens matched is forwarded; `false` only under
    /// [`Unmatched::Drop`].
    keeps_unmatched: bool,
}

impl LensSet {
    /// The components its lenses take as input.
    pub closed spec fn consumes(self) -> Set<Seq<char>> {
        lens_inputs(self.lenses)
    }

    /// What it forwards.
    pub closed spec fn mode(self) -> LensMode {
        forwarded(self.lenses)
    }

    /// Whether this is what applying it to a chunk can come to.
    pub closed spec fn makes(self, chunk: Chunk, runtime: Runtime, derived: Seq<Derived>) -> bool {
        made_by(self.lenses, chunk, runtime, derived)
    }

    /// What it says of its lenses is true of them, all of them cope, and none of them writes a
    /// component that messages are kept under.
    #[verifier::type_invariant]
    spec fn consistent(self) -> bool {
        &&& texts(self.inputs@).to_set() == lens_inputs(self.lenses)
        &&& all_cope(self.lenses)
        &&& self.keeps_unmatched == (forwarded(self.lenses) != LensMode::DropUnmatched)
        &&& forall|component: Seq<char>| #[trigger]
            written_by(self.lenses).contains(component) ==> !keeps_messages(component)
    }

    /// Whether some lens consumes this reflected message type.
    pub fn matches(&self, component: &str) -> (r: bool)
        ensures
            r == self.consumes().contains(component@),
    {
        proof {
            use_type_invariant(self);
        }
        let ghost inputs = texts(self.inputs@);
        let mut i: usize = 0;
        while i < self.inputs.len()
            invariant
                i <= self.inputs@.len(),
                inputs == texts(self.inputs@),
                inputs.to_set() == self.consumes(),
                forall|j: int| 0 <= j < i ==> inputs[j] != component@,
            decreases self.inputs@.len() - i,
        {
            if same_text(self.inputs[i].as_str(), component) {
                assert(inputs[i as int] == component@);
                assert(inputs.contains(component@));
                return true;
            }
            i += 1;
        }
        false
    }

    /// Whether the struct of a topic no lens matched is forwarded.
    pub fn keeps_unmatched(&self) -> (r: bool)
        ensures
            r == (self.mode() != LensMode::DropUnmatched),
    {
        proof {
            use_type_invariant(self);
        }
        self.keeps_unmatched
    }

    /// A set of the given lenses.
    pub fn of(mode: LensMode, all: Vec<Lens>) -> (r: Self)
        requires
            all_apart(all@),
            each_copes(all@),
        ensures
            r.consumes() == inputs_of(all@),
            r.mode() == mode,
    {
        let ghost inputs_of_all = all@.map_values(|lens: Lens| lens_input(lens));
        let ghost given = all@;
        let mut rest = crate::index::reverse_list(all);
        let mut lenses = no_lenses(mode);
        let mut inputs: Vec<String> = Vec::new();
        let ghost mut seen: int = 0;
        assert(texts(inputs@) =~= Seq::<Seq<char>>::empty());
        assert(inputs_of_all.take(0) =~= Seq::<Seq<char>>::empty());
        assert(inputs_of_all.take(0).to_set() =~= Set::<Seq<char>>::empty());
        while rest.len() > 0
            invariant
                0 <= seen <= given.len(),
                rest@ == given.skip(seen).reverse(),
                inputs_of_all == given.map_values(|lens: Lens| lens_input(lens)),
                all_apart(given),
                each_copes(given),
                all_cope(lenses),
                forall|component: Seq<char>| #[trigger]
                    written_by(lenses).contains(component) ==> !keeps_messages(component),
                lens_inputs(lenses) == inputs_of_all.take(seen).to_set(),
                texts(inputs@) == inputs_of_all.take(seen),
                forwarded(lenses) == mode,
            decreases rest@.len(),
        {
            let ghost before = texts(inputs@);
            let ghost was = rest@;
            if let Some(lens) = rest.pop() {
                proof {
                    assert(was.last() == given.skip(seen)[0]);
                    assert(lens == given[seen]);
                    assert(rest@ =~= given.skip(seen + 1).reverse());
                    assert(inputs_of_all.take(seen + 1) =~= inputs_of_all.take(seen).push(
                        lens_input(lens),
                    ));
                    inputs_of_all.take(seen).lemma_push_to_set_commute(lens_input(lens));
                }
                inputs.push(input_of(&lens));
                lenses = add_lens(lenses, lens);
                proof {
                    assert(texts(inputs@) =~= before.push(lens_input(lens)));
                    seen = seen + 1;
                }
            }
        }
        proof {
            assert(seen == given.len());
            assert(inputs_of_all.take(seen) =~= inputs_of_all);
        }
        LensSet {
            lenses,
            inputs,
            keeps_unmatched: match mode {
                LensMode::DropUnmatched => false,
                _ => true,
            },
        }
    }

    /// Applies the lenses to a chunk.
    pub fn apply(&self, chunk: &Chunk, runtime: &Runtime) -> (r: Vec<Derived>)
        requires
            manageable(self.consumes(), *chunk),
        ensures
            self.makes(*chunk, *runtime, r@),
            untouched(self.consumes(), *chunk) ==> passes(self.mode(), *chunk, r@),
            of_messages(*chunk) ==> forwards(self.mode(), self.consumes(), *chunk, r@),
    {
        proof {
            use_type_invariant(self);
        }
        apply_to(&self.lenses, chunk, runtime)
    }
}

/// The lenses a recording applies, or `None` if it does not ask for any.
pub fn lenses_for(representations: &Representations, unmatched: Unmatched) -> (r: Result<
    Option<LensSet>,
    LensBuilderError,
>)
    ensures
        r is Ok,
        match r->Ok_0 {
            None => mode_for(representations@, unmatched) is None,
            Some(set) => mode_for(representations@, unmatched) == Some(set.mode())
                && set.consumes() == ros2_inputs(),
        },
{
    match lens_mode(representations, unmatched) {
        None => Ok(None),
        Some(mode) => match ros2_lenses() {
            Ok(all) => Ok(Some(LensSet::of(mode, all))),
            Err(error) => Err(error),
        },
    }
}

/// What one lens made of a chunk: a chunk, unless nothing came of it, and what went wrong.
pub struct Derived {
    pub chunk: Option<Chunk>,
    pub errors: Vec<String>,
}

/// Whether two chunks hold the same rows.
pub open spec fn same_contents(a: Chunk, b: Chunk) -> bool {
    &&& chunk_entity(a) == chunk_entity(b)
    &&& chunk_rows(a) == chunk_rows(b)
    &&& chunk_times(a) == chunk_times(b)
    &&& chunk_kinds(a) == chunk_kinds(b)
    &&& chunk_archetypes(a) == chunk_archetypes(b)
    &&& chunk_columns(a) == chunk_columns(b)
    &&& chunk_slots(a) == chunk_slots(b)
}

/// Whether a chunk carries no column but ones that messages are kept in.
pub open spec fn of_messages(chunk: Chunk) -> bool {
    forall|component: Seq<char>| #[trigger]
        chunk_columns(chunk).contains_key(component) ==> keeps_messages(component)
}

/// Whether an entity holds properties of the recording. Lenses leave those alone.
pub open spec fn holds_properties(entity: Seq<char>) -> bool {
    entity == "/__properties"@ || without_prefix(entity, "/__properties/"@) is Some
}

/// Whether a column is forwarded: every one, or every one that no lens takes, or none.
pub open spec fn goes_through(
    mode: LensMode,
    inputs: Set<Seq<char>>,
    entity: Seq<char>,
    component: Seq<char>,
) -> bool {
    match mode {
        LensMode::ForwardAll => true,
        LensMode::ForwardUnmatched => !inputs.contains(component) || holds_properties(entity),
        LensMode::DropUnmatched => false,
    }
}

/// Whether a chunk carries a column that is forwarded.
pub open spec fn hands_on(
    mode: LensMode,
    inputs: Set<Seq<char>>,
    chunk: Chunk,
    component: Seq<char>,
) -> bool {
    &&& chunk_columns(chunk).contains_key(component)
    &&& goes_through(mode, inputs, chunk_entity(chunk), component)
}

/// Whether a chunk is on the same rows as another, and carries the columns that are forwarded
/// of it as they were.
pub open spec fn carries_on(
    mode: LensMode,
    inputs: Set<Seq<char>>,
    chunk: Chunk,
    first: Chunk,
) -> bool {
    &&& chunk_entity(first) == chunk_entity(chunk)
    &&& chunk_rows(first) == chunk_rows(chunk)
    &&& chunk_times(first) == chunk_times(chunk)
    &&& chunk_kinds(first) == chunk_kinds(chunk)
    &&& forall|component: Seq<char>| #[trigger]
        hands_on(mode, inputs, chunk, component) ==> {
            &&& chunk_columns(first).contains_key(component)
            &&& chunk_columns(first)[component] == chunk_columns(chunk)[component]
            &&& chunk_slots(first)[component] == chunk_slots(chunk)[component]
            &&& chunk_archetypes(first)[component] == chunk_archetypes(chunk)[component]
        }
}

/// What becomes of the columns that messages are kept in: the first chunk that comes of a
/// chunk carries on those that are forwarded, unless something went wrong with it, and no
/// chunk carries any other.
pub open spec fn forwards(
    mode: LensMode,
    inputs: Set<Seq<char>>,
    chunk: Chunk,
    derived: Seq<Derived>,
) -> bool {
    &&& (exists|component: Seq<char>| hands_on(mode, inputs, chunk, component)) ==> {
        &&& derived.len() > 0
        &&& match derived[0].chunk {
            Some(first) => carries_on(mode, inputs, chunk, first),
            None => derived[0].errors@.len() > 0,
        }
    }
    &&& forall|k: int, component: Seq<char>|
        #![trigger chunk_columns(derived[k].chunk->0).contains_key(component)]
        0 <= k < derived.len() && derived[k].chunk is Some && chunk_columns(
            derived[k].chunk->0,
        ).contains_key(component) && keeps_messages(component) ==> k == 0 && hands_on(
            mode,
            inputs,
            chunk,
            component,
        )
}

/// Whether a chunk carries columns, and none that is taken as input.
pub open spec fn untouched(inputs: Set<Seq<char>>, chunk: Chunk) -> bool {
    &&& exists|component: Seq<char>| chunk_columns(chunk).contains_key(component)
    &&& forall|component: Seq<char>|
        chunk_columns(chunk).contains_key(component) ==> !inputs.contains(component)
}

/// Whether a chunk came through as it was, unless what no lens takes is dropped.
pub open spec fn passes(mode: LensMode, chunk: Chunk, derived: Seq<Derived>) -> bool {
    if mode == LensMode::DropUnmatched {
        derived.len() == 0
    } else {
        &&& derived.len() == 1
        &&& derived[0].errors@.len() == 0
        &&& derived[0].chunk matches Some(passed) && same_contents(passed, chunk)
    }
}

/// Calls [`Lenses::apply`]: what each chunk that comes of it is, and where lenses failed
/// what they got done and why they failed. A chunk that no lens takes a column of comes
/// through as it is, or not at all where such columns are dropped. Of a chunk no column of
/// which is written, the columns that are forwarded lead what comes of it, unless what was
/// derived cannot be put beside them; every other column is one that some lens writes. What
/// the lenses derive is not stated. A lens can panic on a chunk that is not [`manageable`]. With
/// `RERUN_VERY_STRICT` set in the environment it can panic where a timeline is out of order; it
/// is taken not to be set.
#[verifier::external_body]
fn apply_to(lenses: &Lenses, chunk: &Chunk, runtime: &Runtime) -> (r: Vec<Derived>)
    requires
        all_cope(*lenses),
        manageable(lens_inputs(*lenses), *chunk),
    ensures
        made_by(*lenses, *chunk, *runtime, r@),
        untouched(lens_inputs(*lenses), *chunk) ==> passes(forwarded(*lenses), *chunk, r@),
        of_messages(*chunk) && (forall|component: Seq<char>| #[trigger]
            written_by(*lenses).contains(component) ==> !keeps_messages(component)) ==> forwards(
            forwarded(*lenses),
            lens_inputs(*lenses),
            *chunk,
            r@,
        ),
{
    lenses.apply(chunk, runtime).map(
        |result| match result {
            Ok(chunk) => Derived { chunk: Some(chunk), errors: Vec::new() },
            Err(error) => Derived {
                errors: error.errors().map(|error| error.to_string()).collect(),
                chunk: error.partial_chunk(),
            },
        },
    ).collect()
}

/// The chunks that came of some lenses, in order.
pub open spec fn chunks_of(derived: Seq<Derived>) -> Seq<Chunk>
    decreases derived.len(),
{
    if derived.len() == 0 {
        Seq::empty()
    } else {
        let rest = chunks_of(derived.drop_last());
        match derived.last().chunk {
            Some(chunk) => rest.push(chunk),
            None => rest,
        }
    }
}

/// The chunks that came of applying lenses: every one that succeeded, and what the others
/// got done.
pub fn surviving(derived: Vec<Derived>) -> (r: Vec<Chunk>)
    ensures
        r@ == chunks_of(derived@),
{
    let ghost all = derived@;
    let mut rest = crate::index::reverse_list(derived);
    let mut out: Vec<Chunk> = Vec::new();
    let ghost mut seen: int = 0;
    assert(all.take(0) =~= Seq::<Derived>::empty());
    while rest.len() > 0
        invariant
            0 <= seen <= all.len(),
            rest@ == all.skip(seen).reverse(),
            out@ == chunks_of(all.take(seen)),
        decreases rest@.len(),
    {
        let ghost was = rest@;
        if let Some(next) = rest.pop() {
            proof {
                assert(was.last() == all.skip(seen)[0]);
                assert(next == all[seen]);
                assert(rest@ =~= all.skip(seen + 1).reverse());
                assert(all.take(seen + 1).drop_last() =~= all.take(seen));
                assert(all.take(seen + 1).last() == all[seen]);
                seen = seen + 1;
            }
            if let Some(chunk) = next.chunk {
                out.push(chunk);
            }
        }
    }
    proof {
        assert(seen == all.len());
        assert(all.take(seen) =~= all);
    }
    out
}

/// What went wrong, one after the other.
pub open spec fn failures_of(derived: Seq<Derived>) -> Seq<String>
    decreases derived.len(),
{
    if derived.len() == 0 {
        Seq::empty()
    } else {
        failures_of(derived.drop_last()) + derived.last().errors@
    }
}

/// Everything that went wrong applying lenses.
pub fn failures(derived: &Vec<Derived>) -> (r: Vec<String>)
    ensures
        texts(r@) == texts(failures_of(derived@)),
{
    let mut out: Vec<String> = Vec::new();
    let mut i: usize = 0;
    assert(derived@.take(0) =~= Seq::<Derived>::empty());
    assert(texts(out@) =~= texts(failures_of(derived@.take(0))));
    while i < derived.len()
        invariant
            i <= derived@.len(),
            texts(out@) == texts(failures_of(derived@.take(i as int))),
        decreases derived@.len() - i,
    {
        let errors = &derived[i].errors;
        let ghost before = failures_of(derived@.take(i as int));
        proof {
            assert(derived@.take(i as int + 1).drop_last() =~= derived@.take(i as int));
            assert(derived@.take(i as int + 1).last() == derived@[i as int]);
        }
        let mut k: usize = 0;
        assert(before + errors@.take(0) =~= before);
        while k < errors.len()
            invariant
                k <= errors@.len(),
                texts(out@) == texts(before + errors@.take(k as int)),
            decreases errors@.len() - k,
        {
            let ghost had = texts(out@);
            out.push(errors[k].clone());
            proof {
                assert(texts(out@) =~= had.push(errors@[k as int]@));
                assert(before + errors@.take(k as int + 1) =~= (before + errors@.take(
                    k as int,
                )).push(errors@[k as int]));
                assert(texts((before + errors@.take(k as int)).push(errors@[k as int])) =~= texts(
                    before + errors@.take(k as int),
                ).push(errors@[k as int]@));
            }
            k += 1;
        }
        assert(errors@.take(k as int) =~= errors@);
        i += 1;
    }
    assert(derived@.take(i as int) =~= derived@);
    out
}

/// Lenses are applied exactly where lens output is asked for. What they take stays where the
/// reflected form is asked for as well; what they do not take is dropped only where that was asked
/// for and the reflected form was not.
pub proof fn lenses_forward_what_is_kept(kept: Set<Representation>, unmatched: Unmatched)
    ensures
        mode_for(kept, unmatched) is Some <==> kept.contains(Representation::Lenses),
        mode_for(kept, unmatched) == Some(LensMode::ForwardAll) <==> kept.contains(
            Representation::Lenses,
        ) && kept.contains(Representation::Reflected),
        mode_for(kept, unmatched) == Some(LensMode::DropUnmatched) <==> kept.contains(
            Representation::Lenses,
        ) && !kept.contains(Representation::Reflected) && unmatched == Unmatched::Drop,
{
}

/// Every chunk that came of the lenses survives, whether something went wrong beside it or not, and
/// everything that went wrong is told, in order: one more result adds its chunk, if it has one, and
/// all its failures, after those of the results before it.
pub proof fn every_result_adds_its_chunk_and_its_failures(derived: Seq<Derived>, next: Derived)
    ensures
        next.chunk matches Some(chunk) ==> chunks_of(derived.push(next)) == chunks_of(derived).push(
            chunk,
        ),
        next.chunk is None ==> chunks_of(derived.push(next)) == chunks_of(derived),
        failures_of(derived.push(next)) == failures_of(derived) + next.errors@,
        chunks_of(Seq::empty()).len() == 0,
        failures_of(Seq::empty()).len() == 0,
{
    assert(derived.push(next).drop_last() =~= derived);
}

} // verus!
