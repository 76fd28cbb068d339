//! The components a topic's messages are stored under.
//!
//! Descriptors are minted here, one per replayable form of a message. A component is
//! addressed by its archetype's short name and its field, as Rerun's own are.

use vstd::prelude::*;

use crate::text::{same_text, strip_prefix, without_prefix};

verus! {

/// An archetype's name without the namespace of Rerun's own archetypes.
pub open spec fn short_name(archetype: Seq<char>) -> Seq<char> {
    match without_prefix(archetype, "rerun.archetypes."@) {
        Some(short) => short,
        None => match without_prefix(archetype, "rerun.blueprint.archetypes."@) {
            Some(short) => short,
            None => match without_prefix(archetype, "rerun."@) {
                Some(short) => short,
                None => archetype,
            },
        },
    }
}

/// `<archetype>:<field>` — how a component is addressed.
pub open spec fn component_name(archetype: Seq<char>, field: Seq<char>) -> Seq<char> {
    short_name(archetype) + ":"@ + field
}

/// A ROS type name as an archetype name: `sensor_msgs/msg/Imu` → `sensor_msgs.msg.Imu`.
pub open spec fn dotted(ros_type: Seq<char>) -> Seq<char> {
    ros_type.map_values(
        |c: char|
            if c == '/' {
                '.'
            } else {
                c
            },
    )
}

/// The component raw messages are stored under.
pub open spec fn raw_component() -> Seq<char> {
    component_name("rosbag2.SerializedBagMessage"@, "serialized_data"@)
}

/// The component reflected messages of a type are stored under; `None` for a type with no
/// name, which cannot be an archetype.
pub open spec fn reflected_component(ros_type: Seq<char>) -> Option<Seq<char>> {
    if ros_type.len() == 0 {
        None
    } else {
        Some(component_name(dotted(ros_type), "message"@))
    }
}

/// Whether a component is one that messages are kept under: the raw one, or the field
/// `message` of an archetype.
pub open spec fn keeps_messages(component: Seq<char>) -> bool {
    component == raw_component() || (component.len() >= 8 && component.skip(component.len() - 8)
        == ":message"@)
}

/// The components that messages are stored under are such components.
pub(crate) proof fn lemma_message_component(archetype: Seq<char>)
    ensures
        keeps_messages(component_name(archetype, "message"@)),
        component_name(archetype, "message"@) != raw_component(),
{
    reveal_strlit(":");
    reveal_strlit("message");
    reveal_strlit(":message");
    reveal_strlit("serialized_data");
    let name = component_name(archetype, "message"@);
    assert(name.skip(name.len() - 8) =~= ":message"@);
    assert(name.last() == 'e');
    assert(raw_component().last() == 'a');
}

/// The address of an archetype's field.
pub fn component_identifier(archetype: &str, field: &str) -> (r: String)
    ensures
        r@ == component_name(archetype@, field@),
{
    let short = match strip_prefix(archetype, "rerun.archetypes.") {
        Some(short) => short,
        None => match strip_prefix(archetype, "rerun.blueprint.archetypes.") {
            Some(short) => short,
            None => match strip_prefix(archetype, "rerun.") {
                Some(short) => short,
                None => archetype,
            },
        },
    };
    let mut out = short.to_owned();
    out.append(":");
    out.append(field);
    out
}

/// Calls [`str::replace`]: every `/` becomes a `.`, and nothing else changes.
#[verifier::external_body]
fn slashes_to_dots(text: &str) -> (r: String)
    ensures
        r@ == dotted(text@),
{
    text.replace('/', ".")
}

/// What a component is: a field of an archetype.
#[derive(Debug)]
pub struct Descriptor {
    pub archetype: String,
    pub field: String,
}

impl Descriptor {
    pub open spec fn name(self) -> Seq<char> {
        component_name(self.archetype@, self.field@)
    }

    /// How the component is addressed.
    pub fn component(&self) -> (r: String)
        ensures
            r@ == self.name(),
    {
        component_identifier(self.archetype.as_str(), self.field.as_str())
    }
}

/// `rosbag2.SerializedBagMessage:serialized_data` — the CDR bytes exactly as they went
/// over the wire.
///
/// Named for the `rosbag2_storage` struct the bytes arrive in and the field they arrive as.
pub fn raw_descriptor() -> (r: Descriptor)
    ensures
        r.archetype@ == "rosbag2.SerializedBagMessage"@,
        r.field@ == "serialized_data"@,
        r.name() == raw_component(),
{
    Descriptor {
        archetype: "rosbag2.SerializedBagMessage".to_owned(),
        field: "serialized_data".to_owned(),
    }
}

/// `sensor_msgs/msg/Imu` → `sensor_msgs.msg.Imu:message`, or `None` for an empty type name.
///
/// This matches what the MCAP importer writes, so the same lenses apply to bags recorded
/// either way.
pub fn reflected_descriptor(ros_type: &str) -> (r: Option<Descriptor>)
    ensures
        reflected_component(ros_type@) == (match r {
            Some(descriptor) => Some(descriptor.name()),
            None => None,
        }),
        r matches Some(descriptor) ==> descriptor.archetype@ == dotted(ros_type@)
            && descriptor.field@ == "message"@,
{
    proof {
        reveal_strlit("");
        assert(ros_type@.len() == 0 ==> ros_type@ =~= ""@);
    }
    if same_text(ros_type, "") {
        return None;
    }
    Some(Descriptor { archetype: slashes_to_dots(ros_type), field: "message".to_owned() })
}

/// The components a topic's messages are stored under, one per replayable form.
#[derive(Debug)]
pub struct Columns {
    raw: String,
    reflected: Option<String>,
}

/// The components of one topic, as contracts speak of them.
pub struct ColumnNames {
    pub raw: Seq<char>,
    pub reflected: Option<Seq<char>>,
}

impl View for Columns {
    type V = ColumnNames;

    closed spec fn view(&self) -> ColumnNames {
        ColumnNames {
            raw: self.raw@,
            reflected: match self.reflected {
                Some(component) => Some(component@),
                None => None,
            },
        }
    }
}

impl ColumnNames {
    /// The components of a topic of this type.
    pub open spec fn of_type(ros_type: Seq<char>) -> Self {
        ColumnNames { raw: raw_component(), reflected: reflected_component(ros_type) }
    }

    /// Whether a chunk with these components carries the blob column, the struct column or
    /// both.
    pub open spec fn message_columns(self, components: Seq<String>) -> bool {
        exists|i: int|
            0 <= i < components.len() && ((#[trigger] components[i])@ == self.raw || Some(
                components[i]@,
            ) == self.reflected)
    }

    /// Whether a chunk with these components carries the struct column.
    pub open spec fn struct_column(self, components: Seq<String>) -> bool {
        exists|i: int|
            0 <= i < components.len() && Some((#[trigger] components[i])@) == self.reflected
    }
}

/// The raw and the reflected component of a topic are never the same.
pub(crate) proof fn lemma_names(ros_type: Seq<char>)
    ensures
        raw_component().len() > 0,
        reflected_component(ros_type) matches Some(reflected) ==> reflected.len() > 0 && reflected
            != raw_component(),
{
    reveal_strlit("serialized_data");
    reveal_strlit("message");
    assert(raw_component().last() == 'a');
    assert(reflected_component(ros_type) matches Some(reflected) ==> reflected.last() == 'e');
}

impl Columns {
    /// Both components have names, and not the same one.
    #[verifier::type_invariant]
    spec fn told_apart(self) -> bool {
        &&& self.raw@.len() > 0
        &&& self.reflected matches Some(reflected) ==> reflected@.len() > 0 && reflected@
            != self.raw@
    }

    pub fn for_type(ros_type: &str) -> (r: Self)
        ensures
            r@ == ColumnNames::of_type(ros_type@),
    {
        proof {
            lemma_names(ros_type@);
        }
        let reflected = match reflected_descriptor(ros_type) {
            Some(descriptor) => Some(descriptor.component()),
            None => None,
        };
        Columns { raw: raw_descriptor().component(), reflected }
    }

    pub fn raw(&self) -> (r: &str)
        ensures
            r@ == self@.raw,
            r@.len() > 0,
    {
        proof {
            use_type_invariant(self);
        }
        self.raw.as_str()
    }

    /// `None` for a type name that cannot be an archetype name; every chunk on such a
    /// topic is raw.
    pub fn reflected(&self) -> (r: Option<&str>)
        ensures
            self@.reflected == (match r {
                Some(component) => Some(component@),
                None => None,
            }),
            r matches Some(component) ==> component@.len() > 0 && component@ != self@.raw,
    {
        proof {
            use_type_invariant(self);
        }
        match &self.reflected {
            Some(component) => Some(component.as_str()),
            None => None,
        }
    }

    /// Whether a chunk holds messages: it carries the blob column, the struct column, or
    /// both. Anything else on a topic's entity is lens output.
    pub fn holds_messages(&self, components: &Vec<String>) -> (r: bool)
        ensures
            r == self@.message_columns(components@),
    {
        let mut i: usize = 0;
        while i < components.len()
            invariant
                i <= components@.len(),
                forall|j: int|
                    0 <= j < i ==> !((#[trigger] components@[j])@ == self@.raw || Some(
                        components@[j]@,
                    ) == self@.reflected),
            decreases components@.len() - i,
        {
            let component = components[i].as_str();
            assert(component@ == components@[i as int]@);
            if same_text(component, self.raw()) {
                return true;
            }
            if let Some(reflected) = self.reflected() {
                if same_text(component, reflected) {
                    return true;
                }
            }
            i += 1;
        }
        false
    }

    /// Whether a chunk carries the struct column, and so has rows that replay by
    /// re-encoding.
    pub fn holds_structs(&self, components: &Vec<String>) -> (r: bool)
        ensures
            r == self@.struct_column(components@),
    {
        let reflected = match self.reflected() {
            Some(reflected) => reflected,
            None => {
                return false;
            },
        };
        let mut i: usize = 0;
        while i < components.len()
            invariant
                i <= components@.len(),
                self@.reflected == Some(reflected@),
                forall|j: int| 0 <= j < i ==> Some((#[trigger] components@[j])@) != self@.reflected,
            decreases components@.len() - i,
        {
            if same_text(components[i].as_str(), reflected) {
                assert(Some(components@[i as int]@) == self@.reflected);
                return true;
            }
            i += 1;
        }
        false
    }
}

/// The archetype of a type is its name with a dot for every slash: as long, with every other
/// character as it is and no slash left. Types that differ in more than that differ as
/// archetypes.
pub proof fn only_slashes_are_replaced(ros_type: Seq<char>)
    ensures
        dotted(ros_type).len() == ros_type.len(),
        forall|i: int|
            0 <= i < ros_type.len() ==> {
                &&& (#[trigger] dotted(ros_type)[i]) != '/'
                &&& ros_type[i] == '/' ==> dotted(ros_type)[i] == '.'
                &&& ros_type[i] != '/' ==> dotted(ros_type)[i] == ros_type[i]
            },
{
}

/// Raw messages of every topic are kept under one component, and the decoded messages of a type
/// under one that is named after the type. Every type with a name has one, and it ends in
/// `:message`; it is the whole name of the archetype before that, unless it is one of Rerun's
/// own.
pub proof fn components_are_named_for_what_they_hold(ros_type: Seq<char>)
    ensures
        raw_component() == "rosbag2.SerializedBagMessage:serialized_data"@,
        reflected_component(ros_type) is None <==> ros_type.len() == 0,
        reflected_component(ros_type) matches Some(component) ==> {
            let name = dotted(ros_type);
            &&& component.len() >= 8
            &&& component.skip(component.len() - 8) == ":message"@
            &&& !is_reruns_own(name) ==> component.take(component.len() - 8) == name
        },
        ColumnNames::of_type(ros_type).raw == "rosbag2.SerializedBagMessage:serialized_data"@,
        ColumnNames::of_type(ros_type).reflected == reflected_component(ros_type),
{
    reveal_strlit("rosbag2.SerializedBagMessage:serialized_data");
    reveal_strlit("rosbag2.SerializedBagMessage");
    reveal_strlit("serialized_data");
    reveal_strlit(":");
    reveal_strlit("message");
    reveal_strlit(":message");
    let raw = "rosbag2.SerializedBagMessage"@;
    lemma_not_reruns_own(raw);
    assert(raw[1] == 'o');
    assert(raw_component() =~= "rosbag2.SerializedBagMessage:serialized_data"@);
    if let Some(component) = reflected_component(ros_type) {
        let name = dotted(ros_type);
        assert(component.skip(component.len() - 8) =~= ":message"@);
        if !is_reruns_own(name) {
            lemma_not_reruns_own(name);
            assert(component.take(component.len() - 8) =~= name);
        }
    }
}

/// Whether a name begins with `rerun.`.
pub open spec fn is_reruns_own(name: Seq<char>) -> bool {
    name.len() >= 6 && name[0] == 'r' && name[1] == 'e' && name[2] == 'r' && name[3] == 'u'
        && name[4] == 'n' && name[5] == '.'
}

proof fn lemma_not_reruns_own(name: Seq<char>)
    ensures
        !is_reruns_own(name) ==> short_name(name) == name,
{
    reveal_strlit("rerun.archetypes.");
    reveal_strlit("rerun.blueprint.archetypes.");
    reveal_strlit("rerun.");
    if short_name(name) != name {
        let prefix = if "rerun.archetypes."@.is_prefix_of(name) {
            "rerun.archetypes."@
        } else if "rerun.blueprint.archetypes."@.is_prefix_of(name) {
            "rerun.blueprint.archetypes."@
        } else {
            "rerun."@
        };
        assert(prefix.is_prefix_of(name));
        assert forall|i: int| 0 <= i < 6 implies name[i] == prefix[i] by {
            assert(prefix[i] == name.subrange(0, prefix.len() as int)[i]);
        }
    }
}

/// A chunk holds messages of a topic where one of its components is the raw one or that of the
/// topic's type, and structs of it where one is that of the type. Another component, of any name,
/// makes no difference.
pub proof fn only_message_columns_hold_messages(ros_type: Seq<char>, components: Seq<String>)
    ensures
        ColumnNames::of_type(ros_type).message_columns(components) <==> exists|i: int|
            0 <= i < components.len() && ((#[trigger] components[i])@
                == "rosbag2.SerializedBagMessage:serialized_data"@ || (ros_type.len() > 0
                && components[i]@ == reflected_component(ros_type)->0)),
        ColumnNames::of_type(ros_type).struct_column(components) <==> exists|i: int|
            0 <= i < components.len() && ros_type.len() > 0 && (#[trigger] components[i])@
                == reflected_component(ros_type)->0,
{
    components_are_named_for_what_they_hold(ros_type);
}

} // verus!
