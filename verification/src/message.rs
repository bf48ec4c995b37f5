use crate::error::{McLogError, McLogErrorView};
use crate::level::{spec_level_from_name, LogLevel};
use crate::nbt::{
    has_key, key_index, keys_distinct, law_insert_then_get, lemma_key_index_absent,
    lemma_key_index_distinct, spec_insert, law_swap_remove_keeps_keys_distinct, law_swap_remove_keeps_other_keys,
    law_swap_remove_takes_the_key, spec_get, spec_swap_remove, Nbt, NbtCompound,
};
use uuid::Uuid;
use vstd::prelude::*;

verus! {

/// A UUID of the `uuid` crate: built here from bytes, then carried.
#[verifier::external_type_specification]
#[verifier::external_body]
pub struct ExUuid(Uuid);

/// The UUID that `uuid::Uuid::from_bytes` builds from `bytes`.
pub uninterp spec fn spec_uuid_from_bytes(bytes: Seq<u8>) -> Uuid;

/// Calls `uuid::Uuid::from_bytes`, which wraps the 16 bytes as they are; the
/// result is named by `spec_uuid_from_bytes` of those bytes, and no other 16
/// bytes give the same UUID.
#[verifier::external_body]
fn uuid_from_bytes(bytes: [u8; 16]) -> (u: Uuid)
    ensures
        u == spec_uuid_from_bytes(bytes@),
        forall|other: Seq<u8>|
            other.len() == 16 && spec_uuid_from_bytes(other) == u ==> other == bytes@,
{
    Uuid::from_bytes(bytes)
}

/// Byte `j` (0 is the most significant) of the big-endian two's-complement
/// encoding of `x`.
pub open spec fn be_byte(x: i32, j: int) -> u8 {
    let u = x as u32;
    if j == 0 {
        (u >> 24u32) as u8
    } else if j == 1 {
        (u >> 16u32) as u8
    } else if j == 2 {
        (u >> 8u32) as u8
    } else {
        u as u8
    }
}

/// The four bytes of `x`, most significant first.
pub open spec fn be_bytes(x: i32) -> Seq<u8> {
    seq![be_byte(x, 0), be_byte(x, 1), be_byte(x, 2), be_byte(x, 3)]
}

/// The 16 bytes of four ints, each in big-endian order, one after the other.
pub open spec fn spec_uuid_bytes(l: Seq<i32>) -> Seq<u8> {
    be_bytes(l[0]) + be_bytes(l[1]) + be_bytes(l[2]) + be_bytes(l[3])
}

/// The four bytes of `x`, most significant first (`i32::to_be_bytes`).
fn i32_be_bytes(x: i32) -> (r: [u8; 4])
    ensures
        r@ == be_bytes(x),
{
    let u = #[verifier::truncate] (x as u32);
    let r = [
        #[verifier::truncate] ((u >> 24u32) as u8),
        #[verifier::truncate] ((u >> 16u32) as u8),
        #[verifier::truncate] ((u >> 8u32) as u8),
        #[verifier::truncate] (u as u8),
    ];
    proof {
        assert(r@ =~= be_bytes(x));
    }
    r
}

/// The four bytes of an int, read as a big-endian number, give back its
/// two's-complement value.
pub proof fn law_be_bytes_encode(x: i32)
    ensures
        (be_byte(x, 0) as u32) * 0x1000000 + (be_byte(x, 1) as u32) * 0x10000
            + (be_byte(x, 2) as u32) * 0x100 + (be_byte(x, 3) as u32) == x as u32,
{
    let u = x as u32;
    assert(((u >> 24u32) as u8 as u32) * 0x1000000 + ((u >> 16u32) as u8 as u32) * 0x10000
        + ((u >> 8u32) as u8 as u32) * 0x100 + (u as u8 as u32) == u) by (bit_vector);
}

/// The UUID whose bytes are the big-endian encodings of the four ints of a
/// Minecraft int-array UUID.
///
/// No other four ints give the same UUID.
pub fn int_array_to_uuid(l: [i32; 4]) -> (u: Uuid)
    ensures
        u == spec_uuid_from_bytes(spec_uuid_bytes(l@)),
        forall|m: Seq<i32>|
            m.len() == 4 && spec_uuid_from_bytes(spec_uuid_bytes(m)) == u ==> m == l@,
{
    let f1 = i32_be_bytes(l[0]);
    let f2 = i32_be_bytes(l[1]);
    let f3 = i32_be_bytes(l[2]);
    let f4 = i32_be_bytes(l[3]);
    let f: [u8; 16] = [
        f1[0], f1[1], f1[2], f1[3],
        f2[0], f2[1], f2[2], f2[3],
        f3[0], f3[1], f3[2], f3[3],
        f4[0], f4[1], f4[2], f4[3],
    ];
    proof {
        assert(f@ =~= spec_uuid_bytes(l@));
    }
    let u = uuid_from_bytes(f);
    proof {
        assert forall|m: Seq<i32>|
            m.len() == 4 && spec_uuid_from_bytes(spec_uuid_bytes(m)) == u implies m == l@ by {
            assert(spec_uuid_bytes(m) == spec_uuid_bytes(l@));
            lemma_uuid_bytes_injective(m, l@);
        }
    }
    u
}

/// Four ints are read back from their 16 bytes.
proof fn lemma_uuid_bytes_injective(a: Seq<i32>, b: Seq<i32>)
    requires
        a.len() == 4,
        b.len() == 4,
        spec_uuid_bytes(a) == spec_uuid_bytes(b),
    ensures
        a == b,
{
    let sa = spec_uuid_bytes(a);
    let sb = spec_uuid_bytes(b);
    assert(be_bytes(a[0]) =~= sa.subrange(0, 4));
    assert(be_bytes(b[0]) =~= sb.subrange(0, 4));
    assert(be_bytes(a[1]) =~= sa.subrange(4, 8));
    assert(be_bytes(b[1]) =~= sb.subrange(4, 8));
    assert(be_bytes(a[2]) =~= sa.subrange(8, 12));
    assert(be_bytes(b[2]) =~= sb.subrange(8, 12));
    assert(be_bytes(a[3]) =~= sa.subrange(12, 16));
    assert(be_bytes(b[3]) =~= sb.subrange(12, 16));
    lemma_be_bytes_injective(a[0], b[0]);
    lemma_be_bytes_injective(a[1], b[1]);
    lemma_be_bytes_injective(a[2], b[2]);
    lemma_be_bytes_injective(a[3], b[3]);
    assert(a =~= b);
}

/// An int is read back from its four bytes.
proof fn lemma_be_bytes_injective(x: i32, y: i32)
    requires
        be_bytes(x) == be_bytes(y),
    ensures
        x == y,
{
    assert(be_bytes(x)[0] == be_bytes(y)[0]);
    assert(be_bytes(x)[1] == be_bytes(y)[1]);
    assert(be_bytes(x)[2] == be_bytes(y)[2]);
    assert(be_bytes(x)[3] == be_bytes(y)[3]);
    law_be_bytes_encode(x);
    law_be_bytes_encode(y);
    assert(x == y) by (bit_vector)
        requires
            x as u32 == y as u32,
    ;
}

/// The entity that ran the log command.
#[derive(Debug)]
pub struct LogEntity {
    /// Everything under the entity's `data`.
    pub data: NbtCompound,
    pub uuid: Uuid,
    /// The entity's type, such as `minecraft:strider`.
    pub entity_type: String,
}

/// One log, as the datapack wrote it.
///
/// `pos` and `rotation` hold the bit patterns of the `f64` and `f32`
/// coordinates (`f64::to_bits`, `f32::to_bits`).
#[derive(Debug)]
pub struct LogMessage {
    pub dimension: String,
    pub entity: LogEntity,
    pub function: String,
    pub level: LogLevel,
    pub message: Nbt,
    pub pos: [u64; 3],
    pub rotation: [u32; 2],
    pub tick: i32,
}

/// An entity, with its text as characters and its data as entries.
pub struct LogEntityView {
    pub data: Seq<(String, Nbt)>,
    pub uuid: Uuid,
    pub entity_type: Seq<char>,
}

/// A log, with its text as characters and its coordinates as sequences.
pub struct LogMessageView {
    pub dimension: Seq<char>,
    pub entity: LogEntityView,
    pub function: Seq<char>,
    pub level: LogLevel,
    pub message: Nbt,
    pub pos: Seq<u64>,
    pub rotation: Seq<u32>,
    pub tick: i32,
}

impl View for LogEntity {
    type V = LogEntityView;

    open spec fn view(&self) -> LogEntityView {
        LogEntityView { data: self.data@, uuid: self.uuid, entity_type: self.entity_type@ }
    }
}

impl View for LogMessage {
    type V = LogMessageView;

    open spec fn view(&self) -> LogMessageView {
        LogMessageView {
            dimension: self.dimension@,
            entity: self.entity@,
            function: self.function@,
            level: self.level,
            message: self.message,
            pos: self.pos@,
            rotation: self.rotation@,
            tick: self.tick,
        }
    }
}

/// Removes field `name` from the entries: its value and the entries left, or
/// `MissingField` with the entries as they were.
pub open spec fn spec_take_field(e: Seq<(String, Nbt)>, name: Seq<char>) -> Result<
    (Nbt, Seq<(String, Nbt)>),
    McLogErrorView,
> {
    match spec_swap_remove(e, name).0 {
        Some(v) => Ok((v, spec_swap_remove(e, name).1)),
        None => Err(McLogErrorView::MissingField(name, e)),
    }
}

/// Removes an `Int` field.
pub open spec fn spec_take_int(e: Seq<(String, Nbt)>, name: Seq<char>) -> Result<
    (i32, Seq<(String, Nbt)>),
    McLogErrorView,
> {
    match spec_take_field(e, name) {
        Ok((Nbt::Int(i), rest)) => Ok((i, rest)),
        Ok((v, _)) => Err(McLogErrorView::MismatchedType("int"@, v)),
        Err(x) => Err(x),
    }
}

/// Removes a `String` field.
pub open spec fn spec_take_string(e: Seq<(String, Nbt)>, name: Seq<char>) -> Result<
    (Seq<char>, Seq<(String, Nbt)>),
    McLogErrorView,
> {
    match spec_take_field(e, name) {
        Ok((Nbt::String(s), rest)) => Ok((s@, rest)),
        Ok((v, _)) => Err(McLogErrorView::MismatchedType("string"@, v)),
        Err(x) => Err(x),
    }
}

/// Removes a `NbtCompound` field.
pub open spec fn spec_take_compound(e: Seq<(String, Nbt)>, name: Seq<char>) -> Result<
    (Seq<(String, Nbt)>, Seq<(String, Nbt)>),
    McLogErrorView,
> {
    match spec_take_field(e, name) {
        Ok((Nbt::Compound(c), rest)) => Ok((c@, rest)),
        Ok((v, _)) => Err(McLogErrorView::MismatchedType("compound"@, v)),
        Err(x) => Err(x),
    }
}

/// Removes a `List` field.
pub open spec fn spec_take_list(e: Seq<(String, Nbt)>, name: Seq<char>) -> Result<
    (Seq<Nbt>, Seq<(String, Nbt)>),
    McLogErrorView,
> {
    match spec_take_field(e, name) {
        Ok((Nbt::List(l), rest)) => Ok((l@, rest)),
        Ok((v, _)) => Err(McLogErrorView::MismatchedType("list"@, v)),
        Err(x) => Err(x),
    }
}

/// Removes an `IntArray` field.
pub open spec fn spec_take_int_array(e: Seq<(String, Nbt)>, name: Seq<char>) -> Result<
    (Vec<i32>, Seq<(String, Nbt)>),
    McLogErrorView,
> {
    match spec_take_field(e, name) {
        Ok((Nbt::IntArray(a), rest)) => Ok((a, rest)),
        Ok((v, _)) => Err(McLogErrorView::MismatchedType("int_array"@, v)),
        Err(x) => Err(x),
    }
}

/// `i` is the first item of the list that is not a `Float`.
pub open spec fn is_first_non_float(items: Seq<Nbt>, i: int) -> bool {
    &&& 0 <= i < items.len()
    &&& !(items[i] is Float)
    &&& forall|j: int| 0 <= j < i ==> #[trigger] items[j] is Float
}

/// `i` is the first item of the list that is not a `Double`.
pub open spec fn is_first_non_double(items: Seq<Nbt>, i: int) -> bool {
    &&& 0 <= i < items.len()
    &&& !(items[i] is Double)
    &&& forall|j: int| 0 <= j < i ==> #[trigger] items[j] is Double
}

/// The bits of float item `i`, or 0 past the end of the list.
pub open spec fn float_at(items: Seq<Nbt>, i: int) -> u32 {
    if 0 <= i < items.len() {
        items[i]->Float_0
    } else {
        0
    }
}

/// The bits of double item `i`, or 0 past the end of the list.
pub open spec fn double_at(items: Seq<Nbt>, i: int) -> u64 {
    if 0 <= i < items.len() {
        items[i]->Double_0
    } else {
        0
    }
}

/// The two rotation angles: the first two floats of the list, 0 for each
/// missing one; an item that is not a float is refused.
pub open spec fn spec_rotation(items: Seq<Nbt>) -> Result<Seq<u32>, McLogErrorView> {
    if exists|i: int| is_first_non_float(items, i) {
        let i = choose|i: int| is_first_non_float(items, i);
        Err(McLogErrorView::MismatchedType("float"@, items[i]))
    } else {
        Ok(seq![float_at(items, 0), float_at(items, 1)])
    }
}

/// The three coordinates: the first three doubles of the list, 0 for each
/// missing one; an item that is not a double is refused.
pub open spec fn spec_position(items: Seq<Nbt>) -> Result<Seq<u64>, McLogErrorView> {
    if exists|i: int| is_first_non_double(items, i) {
        let i = choose|i: int| is_first_non_double(items, i);
        Err(McLogErrorView::MismatchedType("double"@, items[i]))
    } else {
        Ok(seq![double_at(items, 0), double_at(items, 1), double_at(items, 2)])
    }
}

/// A rotation list of floats gives its first float as the yaw and its
/// second as the pitch, each 0 where the list is too short.
pub proof fn law_rotation_reads_yaw_and_pitch(items: Seq<Nbt>)
    requires
        forall|i: int| 0 <= i < items.len() ==> #[trigger] items[i] is Float,
    ensures
        spec_rotation(items) matches Ok(r) && r.len() == 2 && forall|i: int|
            0 <= i < 2 ==> #[trigger] r[i] == if i < items.len() {
                items[i]->Float_0
            } else {
                0u32
            },
{
    assert(!exists|i: int| is_first_non_float(items, i));
}

/// A position list of doubles gives its first three doubles as the
/// coordinates, each 0 where the list is too short.
pub proof fn law_position_reads_three_coordinates(items: Seq<Nbt>)
    requires
        forall|i: int| 0 <= i < items.len() ==> #[trigger] items[i] is Double,
    ensures
        spec_position(items) matches Ok(r) && r.len() == 3 && forall|i: int|
            0 <= i < 3 ==> #[trigger] r[i] == if i < items.len() {
                items[i]->Double_0
            } else {
                0u64
            },
{
    assert(!exists|i: int| is_first_non_double(items, i));
}

/// The four ints of a UUID int array: none gives four zeros, four or more
/// give the first four, and one to three are refused.
pub open spec fn spec_uuid_ints(a: Vec<i32>) -> Result<Seq<i32>, McLogErrorView> {
    if a@.len() == 0 {
        Ok(seq![0i32, 0i32, 0i32, 0i32])
    } else if a@.len() >= 4 {
        Ok(a@.take(4))
    } else {
        Err(McLogErrorView::MismatchedType("int_array"@, Nbt::IntArray(a)))
    }
}

/// Decodes the `entity` compound: `data`, `uuid` and `type`, in that order.
pub open spec fn spec_decode_entity(e: Seq<(String, Nbt)>) -> Result<LogEntityView, McLogErrorView> {
    match spec_take_compound(e, "data"@) {
        Err(x) => Err(x),
        Ok((data, e1)) => match spec_take_int_array(e1, "uuid"@) {
            Err(x) => Err(x),
            Ok((arr, e2)) => match spec_uuid_ints(arr) {
                Err(x) => Err(x),
                Ok(ints) => match spec_take_string(e2, "type"@) {
                    Err(x) => Err(x),
                    Ok((entity_type, _)) => Ok(
                        LogEntityView {
                            data,
                            uuid: spec_uuid_from_bytes(spec_uuid_bytes(ints)),
                            entity_type,
                        },
                    ),
                },
            },
        },
    }
}

/// Decodes the fields of a log compound, in the order `tick`, `function`,
/// `dimension`, `rotation`, `pos`, `message`, `level`, `entity`; the first
/// field that is missing or of the wrong type gives the error.
pub open spec fn spec_decode_log(e0: Seq<(String, Nbt)>) -> Result<LogMessageView, McLogErrorView> {
    match spec_take_int(e0, "tick"@) {
        Err(x) => Err(x),
        Ok((tick, e1)) => match spec_take_string(e1, "function"@) {
            Err(x) => Err(x),
            Ok((function, e2)) => match spec_take_string(e2, "dimension"@) {
                Err(x) => Err(x),
                Ok((dimension, e3)) => spec_decode_rest(e3, tick, function, dimension),
            },
        },
    }
}

/// Decodes the fields from `rotation` on, given those decoded before.
pub open spec fn spec_decode_rest(
    e3: Seq<(String, Nbt)>,
    tick: i32,
    function: Seq<char>,
    dimension: Seq<char>,
) -> Result<LogMessageView, McLogErrorView> {
    match spec_take_list(e3, "rotation"@) {
        Err(x) => Err(x),
        Ok((rot_items, e4)) => match spec_rotation(rot_items) {
            Err(x) => Err(x),
            Ok(rotation) => match spec_take_list(e4, "pos"@) {
                Err(x) => Err(x),
                Ok((pos_items, e5)) => match spec_position(pos_items) {
                    Err(x) => Err(x),
                    Ok(pos) => match spec_take_field(e5, "message"@) {
                        Err(x) => Err(x),
                        Ok((message, e6)) => match spec_take_string(e6, "level"@) {
                            Err(x) => Err(x),
                            Ok((level_name, e7)) => match spec_level_from_name(level_name) {
                                None => Err(McLogErrorView::UnknownLevel(level_name)),
                                Some(level) => match spec_take_compound(e7, "entity"@) {
                                    Err(x) => Err(x),
                                    Ok((entity_entries, _)) => match spec_decode_entity(entity_entries) {
                                        Err(x) => Err(x),
                                        Ok(entity) => Ok(
                                            LogMessageView {
                                                dimension,
                                                entity,
                                                function,
                                                level,
                                                message,
                                                pos,
                                                rotation,
                                                tick,
                                            },
                                        ),
                                    },
                                },
                            },
                        },
                    },
                },
            },
        },
    }
}

/// What decoding an SNBT value gives: the value must be a compound.
pub open spec fn spec_from_snbt(nbt: Nbt) -> Result<LogMessageView, McLogErrorView> {
    match nbt {
        Nbt::Compound(c) => spec_decode_log(c@),
        _ => Err(McLogErrorView::MismatchedType("compound"@, nbt)),
    }
}

/// A result, with its log and its error each seen through its view.
pub open spec fn result_view<T: View>(r: Result<T, McLogError>) -> Result<T::V, McLogErrorView> {
    match r {
        Ok(t) => Ok(t@),
        Err(e) => Err(e@),
    }
}

/// Removes field `name`; when it is absent, the compound moves into the error.
fn take_field(comp: &mut NbtCompound, name: &'static str) -> (r: Result<Nbt, McLogError>)
    ensures
        match r {
            Ok(v) => spec_take_field(old(comp)@, name@) == Ok::<_, McLogErrorView>((v, final(comp)@)),
            Err(e) => spec_take_field(old(comp)@, name@) == Err::<(Nbt, Seq<(String, Nbt)>), _>(e@),
        },
{
    match comp.swap_remove(name) {
        Some(v) => Ok(v),
        None => {
            let mut taken = NbtCompound::new();
            std::mem::swap(&mut taken, comp);
            Err(McLogError::MissingField(name, taken))
        },
    }
}

/// Removes an `Int` field.
fn take_int(comp: &mut NbtCompound, name: &'static str) -> (r: Result<i32, McLogError>)
    ensures
        match r {
            Ok(i) => spec_take_int(old(comp)@, name@) == Ok::<_, McLogErrorView>((i, final(comp)@)),
            Err(e) => spec_take_int(old(comp)@, name@) == Err::<(i32, Seq<(String, Nbt)>), _>(e@),
        },
{
    let v = match take_field(comp, name) {
        Ok(v) => v,
        Err(e) => return Err(e),
    };
    match v {
        Nbt::Int(i) => Ok(i),
        _ => Err(McLogError::MismatchedType("int", v)),
    }
}

/// Removes a `String` field.
fn take_string(comp: &mut NbtCompound, name: &'static str) -> (r: Result<String, McLogError>)
    ensures
        match r {
            Ok(s) => spec_take_string(old(comp)@, name@) == Ok::<_, McLogErrorView>((s@, final(comp)@)),
            Err(e) => spec_take_string(old(comp)@, name@) == Err::<(Seq<char>, Seq<(String, Nbt)>), _>(e@),
        },
{
    let v = match take_field(comp, name) {
        Ok(v) => v,
        Err(e) => return Err(e),
    };
    match v {
        Nbt::String(s) => Ok(s),
        _ => Err(McLogError::MismatchedType("string", v)),
    }
}

/// Removes a `NbtCompound` field.
fn take_compound(comp: &mut NbtCompound, name: &'static str) -> (r: Result<NbtCompound, McLogError>)
    ensures
        match r {
            Ok(c) => spec_take_compound(old(comp)@, name@) == Ok::<_, McLogErrorView>((c@, final(comp)@)),
            Err(e) => spec_take_compound(old(comp)@, name@) == Err::<(Seq<(String, Nbt)>, Seq<(String, Nbt)>), _>(e@),
        },
{
    let v = match take_field(comp, name) {
        Ok(v) => v,
        Err(e) => return Err(e),
    };
    match v {
        Nbt::Compound(c) => Ok(c),
        _ => Err(McLogError::MismatchedType("compound", v)),
    }
}

/// Removes a `List` field.
fn take_list(comp: &mut NbtCompound, name: &'static str) -> (r: Result<Vec<Nbt>, McLogError>)
    ensures
        match r {
            Ok(l) => spec_take_list(old(comp)@, name@) == Ok::<_, McLogErrorView>((l@, final(comp)@)),
            Err(e) => spec_take_list(old(comp)@, name@) == Err::<(Seq<Nbt>, Seq<(String, Nbt)>), _>(e@),
        },
{
    let v = match take_field(comp, name) {
        Ok(v) => v,
        Err(e) => return Err(e),
    };
    match v {
        Nbt::List(l) => Ok(l),
        _ => Err(McLogError::MismatchedType("list", v)),
    }
}

/// Removes an `IntArray` field.
fn take_int_array(comp: &mut NbtCompound, name: &'static str) -> (r: Result<Vec<i32>, McLogError>)
    ensures
        match r {
            Ok(a) => spec_take_int_array(old(comp)@, name@) == Ok::<_, McLogErrorView>((a, final(comp)@)),
            Err(e) => spec_take_int_array(old(comp)@, name@) == Err::<(Vec<i32>, Seq<(String, Nbt)>), _>(e@),
        },
{
    let v = match take_field(comp, name) {
        Ok(v) => v,
        Err(e) => return Err(e),
    };
    match v {
        Nbt::IntArray(a) => Ok(a),
        _ => Err(McLogError::MismatchedType("int_array", v)),
    }
}

/// The bits of a `Float`, or `None`.
fn as_float(v: &Nbt) -> (r: Option<u32>)
    ensures
        r == (if *v is Float { Some(v->Float_0) } else { None::<u32> }),
{
    match v {
        Nbt::Float(b) => Some(*b),
        _ => None,
    }
}

/// The bits of a `Double`, or `None`.
fn as_double(v: &Nbt) -> (r: Option<u64>)
    ensures
        r == (if *v is Double { Some(v->Double_0) } else { None::<u64> }),
{
    match v {
        Nbt::Double(b) => Some(*b),
        _ => None,
    }
}

/// The rotation from the items of the `rotation` list.
fn rotation_of(items: Vec<Nbt>) -> (r: Result<[u32; 2], McLogError>)
    ensures
        match r {
            Ok(a) => spec_rotation(items@) == Ok::<_, McLogErrorView>(a@),
            Err(e) => spec_rotation(items@) == Err::<Seq<u32>, _>(e@),
        },
{
    let mut list = items;
    let ghost orig = list@;
    let n = list.len();
    let mut i: usize = 0;
    while i < n
        invariant
            n == list@.len(),
            list@ == orig,
            orig == items@,
            i <= n,
            forall|j: int| 0 <= j < i ==> #[trigger] list@[j] is Float,
        decreases n - i,
    {
        if as_float(&list[i]).is_none() {
            proof {
                assert(is_first_non_float(orig, i as int));
                let c = choose|c: int| is_first_non_float(orig, c);
                assert(is_first_non_float(orig, c));
                if c < i {
                    assert(orig[c] is Float);
                } else if i < c {
                    assert(orig[i as int] is Float);
                }
            }
            let v = list.remove(i);
            return Err(McLogError::MismatchedType("float", v));
        }
        i += 1;
    }
    proof {
        assert(!exists|c: int| is_first_non_float(orig, c));
    }
    assert(n > 0 ==> list@[0] is Float);
    assert(n > 1 ==> list@[1] is Float);
    let a = if n > 0 {
        match as_float(&list[0]) {
            Some(b) => b,
            None => 0,
        }
    } else {
        0
    };
    let b = if n > 1 {
        match as_float(&list[1]) {
            Some(b) => b,
            None => 0,
        }
    } else {
        0
    };
    let r = [a, b];
    proof {
        assert(r@ =~= seq![float_at(orig, 0), float_at(orig, 1)]);
    }
    Ok(r)
}

/// The position from the items of the `pos` list.
fn position_of(items: Vec<Nbt>) -> (r: Result<[u64; 3], McLogError>)
    ensures
        match r {
            Ok(a) => spec_position(items@) == Ok::<_, McLogErrorView>(a@),
            Err(e) => spec_position(items@) == Err::<Seq<u64>, _>(e@),
        },
{
    let mut list = items;
    let ghost orig = list@;
    let n = list.len();
    let mut i: usize = 0;
    while i < n
        invariant
            n == list@.len(),
            list@ == orig,
            orig == items@,
            i <= n,
            forall|j: int| 0 <= j < i ==> #[trigger] list@[j] is Double,
        decreases n - i,
    {
        if as_double(&list[i]).is_none() {
            proof {
                assert(is_first_non_double(orig, i as int));
                let c = choose|c: int| is_first_non_double(orig, c);
                assert(is_first_non_double(orig, c));
                if c < i {
                    assert(orig[c] is Double);
                } else if i < c {
                    assert(orig[i as int] is Double);
                }
            }
            let v = list.remove(i);
            return Err(McLogError::MismatchedType("double", v));
        }
        i += 1;
    }
    proof {
        assert(!exists|c: int| is_first_non_double(orig, c));
    }
    let mut coords: [u64; 3] = [0, 0, 0];
    let mut k: usize = 0;
    while k < 3
        invariant
            n == list@.len(),
            list@ == orig,
            orig == items@,
            forall|j: int| 0 <= j < n ==> #[trigger] list@[j] is Double,
            k <= 3,
            forall|j: int| 0 <= j < k ==> #[trigger] coords@[j] == double_at(orig, j),
            forall|j: int| k <= j < 3 ==> #[trigger] coords@[j] == 0,
        decreases 3 - k,
    {
        if k < n {
            assert(list@[k as int] is Double);
            match as_double(&list[k]) {
                Some(b) => {
                    coords[k] = b;
                },
                None => {},
            }
        }
        k += 1;
    }
    proof {
        assert(coords@ =~= seq![double_at(orig, 0), double_at(orig, 1), double_at(orig, 2)]);
    }
    Ok(coords)
}

/// The four ints of a UUID int array.
fn uuid_ints(a: Vec<i32>) -> (r: Result<[i32; 4], McLogError>)
    ensures
        match r {
            Ok(x) => spec_uuid_ints(a) == Ok::<_, McLogErrorView>(x@),
            Err(e) => spec_uuid_ints(a) == Err::<Seq<i32>, _>(e@),
        },
{
    if a.len() == 0 {
        let x = [0i32, 0i32, 0i32, 0i32];
        proof {
            assert(x@ =~= seq![0i32, 0i32, 0i32, 0i32]);
        }
        Ok(x)
    } else if a.len() >= 4 {
        let x = [a[0], a[1], a[2], a[3]];
        proof {
            assert(x@ =~= a@.take(4));
        }
        Ok(x)
    } else {
        Err(McLogError::MismatchedType("int_array", Nbt::IntArray(a)))
    }
}

/// The string that `key` holds, as characters.
pub open spec fn string_field(e: Seq<(String, Nbt)>, key: Seq<char>) -> Seq<char> {
    spec_get(e, key)->Some_0->String_0@
}

/// The field names of a log differ from one another.
proof fn lemma_field_names_differ()
    ensures
        "tick"@ != "function"@,
        "tick"@ != "dimension"@,
        "tick"@ != "rotation"@,
        "tick"@ != "pos"@,
        "tick"@ != "message"@,
        "tick"@ != "level"@,
        "tick"@ != "entity"@,
        "function"@ != "dimension"@,
        "function"@ != "rotation"@,
        "function"@ != "pos"@,
        "function"@ != "message"@,
        "function"@ != "level"@,
        "function"@ != "entity"@,
        "dimension"@ != "rotation"@,
        "dimension"@ != "pos"@,
        "dimension"@ != "message"@,
        "dimension"@ != "level"@,
        "dimension"@ != "entity"@,
        "rotation"@ != "pos"@,
        "rotation"@ != "message"@,
        "rotation"@ != "level"@,
        "rotation"@ != "entity"@,
        "pos"@ != "message"@,
        "pos"@ != "level"@,
        "pos"@ != "entity"@,
        "message"@ != "level"@,
        "message"@ != "entity"@,
        "level"@ != "entity"@,
        "data"@ != "uuid"@,
        "data"@ != "type"@,
        "uuid"@ != "type"@,
{
    reveal_strlit("tick");
    reveal_strlit("function");
    reveal_strlit("dimension");
    reveal_strlit("rotation");
    reveal_strlit("pos");
    reveal_strlit("message");
    reveal_strlit("level");
    reveal_strlit("entity");
    reveal_strlit("data");
    reveal_strlit("uuid");
    reveal_strlit("type");
    assert("tick"@.len() != "function"@.len() || "tick"@[0] != "function"@[0]);
    assert("tick"@.len() != "dimension"@.len() || "tick"@[0] != "dimension"@[0]);
    assert("tick"@.len() != "rotation"@.len() || "tick"@[0] != "rotation"@[0]);
    assert("tick"@.len() != "pos"@.len() || "tick"@[0] != "pos"@[0]);
    assert("tick"@.len() != "message"@.len() || "tick"@[0] != "message"@[0]);
    assert("tick"@.len() != "level"@.len() || "tick"@[0] != "level"@[0]);
    assert("tick"@.len() != "entity"@.len() || "tick"@[0] != "entity"@[0]);
    assert("function"@.len() != "dimension"@.len() || "function"@[0] != "dimension"@[0]);
    assert("function"@.len() != "rotation"@.len() || "function"@[0] != "rotation"@[0]);
    assert("function"@.len() != "pos"@.len() || "function"@[0] != "pos"@[0]);
    assert("function"@.len() != "message"@.len() || "function"@[0] != "message"@[0]);
    assert("function"@.len() != "level"@.len() || "function"@[0] != "level"@[0]);
    assert("function"@.len() != "entity"@.len() || "function"@[0] != "entity"@[0]);
    assert("dimension"@.len() != "rotation"@.len() || "dimension"@[0] != "rotation"@[0]);
    assert("dimension"@.len() != "pos"@.len() || "dimension"@[0] != "pos"@[0]);
    assert("dimension"@.len() != "message"@.len() || "dimension"@[0] != "message"@[0]);
    assert("dimension"@.len() != "level"@.len() || "dimension"@[0] != "level"@[0]);
    assert("dimension"@.len() != "entity"@.len() || "dimension"@[0] != "entity"@[0]);
    assert("rotation"@.len() != "pos"@.len() || "rotation"@[0] != "pos"@[0]);
    assert("rotation"@.len() != "message"@.len() || "rotation"@[0] != "message"@[0]);
    assert("rotation"@.len() != "level"@.len() || "rotation"@[0] != "level"@[0]);
    assert("rotation"@.len() != "entity"@.len() || "rotation"@[0] != "entity"@[0]);
    assert("pos"@.len() != "message"@.len() || "pos"@[0] != "message"@[0]);
    assert("pos"@.len() != "level"@.len() || "pos"@[0] != "level"@[0]);
    assert("pos"@.len() != "entity"@.len() || "pos"@[0] != "entity"@[0]);
    assert("message"@.len() != "level"@.len() || "message"@[0] != "level"@[0]);
    assert("message"@.len() != "entity"@.len() || "message"@[0] != "entity"@[0]);
    assert("level"@.len() != "entity"@.len() || "level"@[0] != "entity"@[0]);
    assert("data"@.len() != "uuid"@.len() || "data"@[0] != "uuid"@[0]);
    assert("data"@.len() != "type"@.len() || "data"@[0] != "type"@[0]);
    assert("uuid"@.len() != "type"@.len() || "uuid"@[0] != "type"@[0]);
}

/// The entity compound, with the fields the datapack writes, decodes into
/// them.
proof fn lemma_decode_entity_fields(ent: Seq<(String, Nbt)>, data: NbtCompound, uuid: Vec<i32>)
    requires
        keys_distinct(ent),
        spec_get(ent, "data"@) == Some(Nbt::Compound(data)),
        spec_get(ent, "uuid"@) == Some(Nbt::IntArray(uuid)),
        uuid@.len() == 0 || uuid@.len() >= 4,
        (spec_get(ent, "type"@) matches Some(Nbt::String(_))),
    ensures
        spec_decode_entity(ent) == Ok::<_, McLogErrorView>(LogEntityView {
            data: data@,
            uuid: spec_uuid_from_bytes(
                spec_uuid_bytes(
                    if uuid@.len() == 0 {
                        seq![0i32, 0i32, 0i32, 0i32]
                    } else {
                        uuid@.take(4)
                    },
                ),
            ),
            entity_type: string_field(ent, "type"@),
        }),
{
    lemma_field_names_differ();
    law_swap_remove_takes_the_key(ent, "data"@);
    law_swap_remove_keeps_keys_distinct(ent, "data"@);
    law_swap_remove_keeps_other_keys(ent, "data"@, "uuid"@);
    law_swap_remove_keeps_other_keys(ent, "data"@, "type"@);
    let n1 = spec_swap_remove(ent, "data"@).1;
    law_swap_remove_takes_the_key(n1, "uuid"@);
    law_swap_remove_keeps_keys_distinct(n1, "uuid"@);
    law_swap_remove_keeps_other_keys(n1, "uuid"@, "type"@);
    let n2 = spec_swap_remove(n1, "uuid"@).1;
    law_swap_remove_takes_the_key(n2, "type"@);
    law_swap_remove_keeps_keys_distinct(n2, "type"@);
    let n3 = spec_swap_remove(n2, "type"@).1;
}

/// The fields from `rotation` on decode into what they hold.
proof fn lemma_decode_rest_fields(
    e: Seq<(String, Nbt)>,
    tick: i32,
    function: Seq<char>,
    dimension: Seq<char>,
    rotation: Vec<Nbt>,
    pos: Vec<Nbt>,
    entity: NbtCompound,
    data: NbtCompound,
    uuid: Vec<i32>,
)
    requires
        keys_distinct(e),
        spec_get(e, "rotation"@) == Some(Nbt::List(rotation)),
        forall|i: int| 0 <= i < rotation@.len() ==> #[trigger] rotation@[i] is Float,
        spec_get(e, "pos"@) == Some(Nbt::List(pos)),
        forall|i: int| 0 <= i < pos@.len() ==> #[trigger] pos@[i] is Double,
        spec_get(e, "message"@) is Some,
        (spec_get(e, "level"@) matches Some(Nbt::String(_))),
        spec_level_from_name(string_field(e, "level"@)) is Some,
        spec_get(e, "entity"@) == Some(Nbt::Compound(entity)),
        keys_distinct(entity@),
        spec_get(entity@, "data"@) == Some(Nbt::Compound(data)),
        spec_get(entity@, "uuid"@) == Some(Nbt::IntArray(uuid)),
        uuid@.len() == 0 || uuid@.len() >= 4,
        (spec_get(entity@, "type"@) matches Some(Nbt::String(_))),
    ensures
        spec_decode_rest(e, tick, function, dimension) == Ok::<_, McLogErrorView>(
            LogMessageView {
                dimension,
                entity: LogEntityView {
                    data: data@,
                    uuid: spec_uuid_from_bytes(
                        spec_uuid_bytes(
                            if uuid@.len() == 0 {
                                seq![0i32, 0i32, 0i32, 0i32]
                            } else {
                                uuid@.take(4)
                            },
                        ),
                    ),
                    entity_type: string_field(entity@, "type"@),
                },
                function,
                level: spec_level_from_name(string_field(e, "level"@))->Some_0,
                message: spec_get(e, "message"@)->Some_0,
                pos: seq![double_at(pos@, 0), double_at(pos@, 1), double_at(pos@, 2)],
                rotation: seq![float_at(rotation@, 0), float_at(rotation@, 1)],
                tick,
            },
        ),
{
    lemma_field_names_differ();
    law_swap_remove_takes_the_key(e, "rotation"@);
    law_swap_remove_keeps_keys_distinct(e, "rotation"@);
    law_swap_remove_keeps_other_keys(e, "rotation"@, "pos"@);
    law_swap_remove_keeps_other_keys(e, "rotation"@, "message"@);
    law_swap_remove_keeps_other_keys(e, "rotation"@, "level"@);
    law_swap_remove_keeps_other_keys(e, "rotation"@, "entity"@);
    let e1 = spec_swap_remove(e, "rotation"@).1;
    law_swap_remove_takes_the_key(e1, "pos"@);
    law_swap_remove_keeps_keys_distinct(e1, "pos"@);
    law_swap_remove_keeps_other_keys(e1, "pos"@, "message"@);
    law_swap_remove_keeps_other_keys(e1, "pos"@, "level"@);
    law_swap_remove_keeps_other_keys(e1, "pos"@, "entity"@);
    let e2 = spec_swap_remove(e1, "pos"@).1;
    law_swap_remove_takes_the_key(e2, "message"@);
    law_swap_remove_keeps_keys_distinct(e2, "message"@);
    law_swap_remove_keeps_other_keys(e2, "message"@, "level"@);
    law_swap_remove_keeps_other_keys(e2, "message"@, "entity"@);
    let e3 = spec_swap_remove(e2, "message"@).1;
    law_swap_remove_takes_the_key(e3, "level"@);
    law_swap_remove_keeps_keys_distinct(e3, "level"@);
    law_swap_remove_keeps_other_keys(e3, "level"@, "entity"@);
    let e4 = spec_swap_remove(e3, "level"@).1;
    law_swap_remove_takes_the_key(e4, "entity"@);
    law_swap_remove_keeps_keys_distinct(e4, "entity"@);
    let e5 = spec_swap_remove(e4, "entity"@).1;
    lemma_decode_entity_fields(entity@, data, uuid);
}

/// The first three fields come out as they are, and the others stay.
proof fn lemma_take_first_three(e: Seq<(String, Nbt)>)
    requires
        keys_distinct(e),
        (spec_get(e, "tick"@) matches Some(Nbt::Int(_))),
        (spec_get(e, "function"@) matches Some(Nbt::String(_))),
        (spec_get(e, "dimension"@) matches Some(Nbt::String(_))),
    ensures
        ({
            let e1 = spec_swap_remove(e, "tick"@).1;
            let e2 = spec_swap_remove(e1, "function"@).1;
            let e3 = spec_swap_remove(e2, "dimension"@).1;
            &&& spec_take_int(e, "tick"@) == Ok::<_, McLogErrorView>((spec_get(e, "tick"@)->Some_0->Int_0, e1))
            &&& spec_take_string(e1, "function"@) == Ok::<_, McLogErrorView>((string_field(e, "function"@), e2))
            &&& spec_take_string(e2, "dimension"@) == Ok::<_, McLogErrorView>((string_field(e, "dimension"@), e3))
            &&& keys_distinct(e3)
            &&& spec_get(e3, "rotation"@) == spec_get(e, "rotation"@)
            &&& spec_get(e3, "pos"@) == spec_get(e, "pos"@)
            &&& spec_get(e3, "message"@) == spec_get(e, "message"@)
            &&& spec_get(e3, "level"@) == spec_get(e, "level"@)
            &&& spec_get(e3, "entity"@) == spec_get(e, "entity"@)
        }),
{
    lemma_field_names_differ();
    law_swap_remove_takes_the_key(e, "tick"@);
    law_swap_remove_keeps_keys_distinct(e, "tick"@);
    law_swap_remove_keeps_other_keys(e, "tick"@, "function"@);
    law_swap_remove_keeps_other_keys(e, "tick"@, "dimension"@);
    law_swap_remove_keeps_other_keys(e, "tick"@, "rotation"@);
    law_swap_remove_keeps_other_keys(e, "tick"@, "pos"@);
    law_swap_remove_keeps_other_keys(e, "tick"@, "message"@);
    law_swap_remove_keeps_other_keys(e, "tick"@, "level"@);
    law_swap_remove_keeps_other_keys(e, "tick"@, "entity"@);
    let e1 = spec_swap_remove(e, "tick"@).1;
    law_swap_remove_takes_the_key(e1, "function"@);
    law_swap_remove_keeps_keys_distinct(e1, "function"@);
    law_swap_remove_keeps_other_keys(e1, "function"@, "dimension"@);
    law_swap_remove_keeps_other_keys(e1, "function"@, "rotation"@);
    law_swap_remove_keeps_other_keys(e1, "function"@, "pos"@);
    law_swap_remove_keeps_other_keys(e1, "function"@, "message"@);
    law_swap_remove_keeps_other_keys(e1, "function"@, "level"@);
    law_swap_remove_keeps_other_keys(e1, "function"@, "entity"@);
    let e2 = spec_swap_remove(e1, "function"@).1;
    law_swap_remove_takes_the_key(e2, "dimension"@);
    law_swap_remove_keeps_keys_distinct(e2, "dimension"@);
    law_swap_remove_keeps_other_keys(e2, "dimension"@, "rotation"@);
    law_swap_remove_keeps_other_keys(e2, "dimension"@, "pos"@);
    law_swap_remove_keeps_other_keys(e2, "dimension"@, "message"@);
    law_swap_remove_keeps_other_keys(e2, "dimension"@, "level"@);
    law_swap_remove_keeps_other_keys(e2, "dimension"@, "entity"@);
    let e3 = spec_swap_remove(e2, "dimension"@).1;
}

/// Decoding reads each field by its name: in whatever order a log compound
/// holds its fields, and whatever other fields it holds, a compound whose
/// fields have the types the datapack writes decodes into those fields.
#[verifier::rlimit(50)]
pub proof fn law_decode_reads_fields_by_name(
    e: Seq<(String, Nbt)>,
    rotation: Vec<Nbt>,
    pos: Vec<Nbt>,
    entity: NbtCompound,
    data: NbtCompound,
    uuid: Vec<i32>,
)
    requires
        keys_distinct(e),
        (spec_get(e, "tick"@) matches Some(Nbt::Int(_))),
        (spec_get(e, "function"@) matches Some(Nbt::String(_))),
        (spec_get(e, "dimension"@) matches Some(Nbt::String(_))),
        spec_get(e, "rotation"@) == Some(Nbt::List(rotation)),
        forall|i: int| 0 <= i < rotation@.len() ==> #[trigger] rotation@[i] is Float,
        spec_get(e, "pos"@) == Some(Nbt::List(pos)),
        forall|i: int| 0 <= i < pos@.len() ==> #[trigger] pos@[i] is Double,
        spec_get(e, "message"@) is Some,
        (spec_get(e, "level"@) matches Some(Nbt::String(_))),
        spec_level_from_name(string_field(e, "level"@)) is Some,
        spec_get(e, "entity"@) == Some(Nbt::Compound(entity)),
        keys_distinct(entity@),
        spec_get(entity@, "data"@) == Some(Nbt::Compound(data)),
        spec_get(entity@, "uuid"@) == Some(Nbt::IntArray(uuid)),
        uuid@.len() == 0 || uuid@.len() >= 4,
        (spec_get(entity@, "type"@) matches Some(Nbt::String(_))),
    ensures
        spec_decode_log(e) == Ok::<_, McLogErrorView>(
            LogMessageView {
                dimension: string_field(e, "dimension"@),
                entity: LogEntityView {
                    data: data@,
                    uuid: spec_uuid_from_bytes(
                        spec_uuid_bytes(
                            if uuid@.len() == 0 {
                                seq![0i32, 0i32, 0i32, 0i32]
                            } else {
                                uuid@.take(4)
                            },
                        ),
                    ),
                    entity_type: string_field(entity@, "type"@),
                },
                function: string_field(e, "function"@),
                level: spec_level_from_name(string_field(e, "level"@))->Some_0,
                message: spec_get(e, "message"@)->Some_0,
                pos: seq![double_at(pos@, 0), double_at(pos@, 1), double_at(pos@, 2)],
                rotation: seq![float_at(rotation@, 0), float_at(rotation@, 1)],
                tick: spec_get(e, "tick"@)->Some_0->Int_0,
            },
        ),
{
    lemma_take_first_three(e);
    let e1 = spec_swap_remove(e, "tick"@).1;
    let e2 = spec_swap_remove(e1, "function"@).1;
    let e3 = spec_swap_remove(e2, "dimension"@).1;
    let t = spec_get(e, "tick"@)->Some_0->Int_0;
    let f = string_field(e, "function"@);
    let d = string_field(e, "dimension"@);
    assert(spec_take_int(e, "tick"@) == Ok::<_, McLogErrorView>((t, e1)));
    assert(spec_take_string(e1, "function"@) == Ok::<_, McLogErrorView>((f, e2)));
    assert(spec_take_string(e2, "dimension"@) == Ok::<_, McLogErrorView>((d, e3)));
    assert(spec_decode_log(e) == spec_decode_rest(e3, t, f, d));
    lemma_decode_rest_fields(
        e3,
        t,
        f,
        d,
        rotation,
        pos,
        entity,
        data,
        uuid,
    );
}

/// Some item of the list is not a float: then a first one is not.
proof fn lemma_first_non_float(items: Seq<Nbt>, i: int)
    requires
        0 <= i < items.len(),
        !(items[i] is Float),
    ensures
        exists|j: int| is_first_non_float(items, j),
    decreases i,
{
    if exists|k: int| 0 <= k < i && !(#[trigger] items[k] is Float) {
        let k = choose|k: int| 0 <= k < i && !(#[trigger] items[k] is Float);
        lemma_first_non_float(items, k);
    } else {
        assert(is_first_non_float(items, i));
    }
}

/// Some item of the list is not a double: then a first one is not.
proof fn lemma_first_non_double(items: Seq<Nbt>, i: int)
    requires
        0 <= i < items.len(),
        !(items[i] is Double),
    ensures
        exists|j: int| is_first_non_double(items, j),
    decreases i,
{
    if exists|k: int| 0 <= k < i && !(#[trigger] items[k] is Double) {
        let k = choose|k: int| 0 <= k < i && !(#[trigger] items[k] is Double);
        lemma_first_non_double(items, k);
    } else {
        assert(is_first_non_double(items, i));
    }
}

/// Along the removals that decoding makes, each field is taken out with
/// the value the compound holds under its name.
proof fn lemma_removal_chain(e: Seq<(String, Nbt)>)
    requires
        keys_distinct(e),
    ensures
        ({
            let e1 = spec_swap_remove(e, "tick"@).1;
            let e2 = spec_swap_remove(e1, "function"@).1;
            let e3 = spec_swap_remove(e2, "dimension"@).1;
            let e4 = spec_swap_remove(e3, "rotation"@).1;
            let e5 = spec_swap_remove(e4, "pos"@).1;
            let e6 = spec_swap_remove(e5, "message"@).1;
            let e7 = spec_swap_remove(e6, "level"@).1;
            &&& spec_swap_remove(e, "tick"@).0 == spec_get(e, "tick"@)
            &&& spec_swap_remove(e1, "function"@).0 == spec_get(e, "function"@)
            &&& spec_swap_remove(e2, "dimension"@).0 == spec_get(e, "dimension"@)
            &&& spec_swap_remove(e3, "rotation"@).0 == spec_get(e, "rotation"@)
            &&& spec_swap_remove(e4, "pos"@).0 == spec_get(e, "pos"@)
            &&& spec_swap_remove(e5, "message"@).0 == spec_get(e, "message"@)
            &&& spec_swap_remove(e6, "level"@).0 == spec_get(e, "level"@)
            &&& spec_swap_remove(e7, "entity"@).0 == spec_get(e, "entity"@)
        }),
{
    lemma_field_names_differ();
    law_swap_remove_takes_the_key(e, "tick"@);
    law_swap_remove_keeps_keys_distinct(e, "tick"@);
    law_swap_remove_keeps_other_keys(e, "tick"@, "function"@);
    law_swap_remove_keeps_other_keys(e, "tick"@, "dimension"@);
    law_swap_remove_keeps_other_keys(e, "tick"@, "rotation"@);
    law_swap_remove_keeps_other_keys(e, "tick"@, "pos"@);
    law_swap_remove_keeps_other_keys(e, "tick"@, "message"@);
    law_swap_remove_keeps_other_keys(e, "tick"@, "level"@);
    law_swap_remove_keeps_other_keys(e, "tick"@, "entity"@);
    let e1 = spec_swap_remove(e, "tick"@).1;
    law_swap_remove_takes_the_key(e1, "function"@);
    law_swap_remove_keeps_keys_distinct(e1, "function"@);
    law_swap_remove_keeps_other_keys(e1, "function"@, "dimension"@);
    law_swap_remove_keeps_other_keys(e1, "function"@, "rotation"@);
    law_swap_remove_keeps_other_keys(e1, "function"@, "pos"@);
    law_swap_remove_keeps_other_keys(e1, "function"@, "message"@);
    law_swap_remove_keeps_other_keys(e1, "function"@, "level"@);
    law_swap_remove_keeps_other_keys(e1, "function"@, "entity"@);
    let e2 = spec_swap_remove(e1, "function"@).1;
    law_swap_remove_takes_the_key(e2, "dimension"@);
    law_swap_remove_keeps_keys_distinct(e2, "dimension"@);
    law_swap_remove_keeps_other_keys(e2, "dimension"@, "rotation"@);
    law_swap_remove_keeps_other_keys(e2, "dimension"@, "pos"@);
    law_swap_remove_keeps_other_keys(e2, "dimension"@, "message"@);
    law_swap_remove_keeps_other_keys(e2, "dimension"@, "level"@);
    law_swap_remove_keeps_other_keys(e2, "dimension"@, "entity"@);
    let e3 = spec_swap_remove(e2, "dimension"@).1;
    law_swap_remove_takes_the_key(e3, "rotation"@);
    law_swap_remove_keeps_keys_distinct(e3, "rotation"@);
    law_swap_remove_keeps_other_keys(e3, "rotation"@, "pos"@);
    law_swap_remove_keeps_other_keys(e3, "rotation"@, "message"@);
    law_swap_remove_keeps_other_keys(e3, "rotation"@, "level"@);
    law_swap_remove_keeps_other_keys(e3, "rotation"@, "entity"@);
    let e4 = spec_swap_remove(e3, "rotation"@).1;
    law_swap_remove_takes_the_key(e4, "pos"@);
    law_swap_remove_keeps_keys_distinct(e4, "pos"@);
    law_swap_remove_keeps_other_keys(e4, "pos"@, "message"@);
    law_swap_remove_keeps_other_keys(e4, "pos"@, "level"@);
    law_swap_remove_keeps_other_keys(e4, "pos"@, "entity"@);
    let e5 = spec_swap_remove(e4, "pos"@).1;
    law_swap_remove_takes_the_key(e5, "message"@);
    law_swap_remove_keeps_keys_distinct(e5, "message"@);
    law_swap_remove_keeps_other_keys(e5, "message"@, "level"@);
    law_swap_remove_keeps_other_keys(e5, "message"@, "entity"@);
    let e6 = spec_swap_remove(e5, "message"@).1;
    law_swap_remove_takes_the_key(e6, "level"@);
    law_swap_remove_keeps_keys_distinct(e6, "level"@);
    law_swap_remove_keeps_other_keys(e6, "level"@, "entity"@);
    let e7 = spec_swap_remove(e6, "level"@).1;
    law_swap_remove_takes_the_key(e7, "entity"@);
    law_swap_remove_keeps_keys_distinct(e7, "entity"@);
    let e8 = spec_swap_remove(e7, "entity"@).1;
}

/// The entity's fields are taken out with the values it holds under their
/// names.
proof fn lemma_entity_removal_chain(ent: Seq<(String, Nbt)>)
    requires
        keys_distinct(ent),
    ensures
        ({
            let n1 = spec_swap_remove(ent, "data"@).1;
            let n2 = spec_swap_remove(n1, "uuid"@).1;
            &&& spec_swap_remove(ent, "data"@).0 == spec_get(ent, "data"@)
            &&& spec_swap_remove(n1, "uuid"@).0 == spec_get(ent, "uuid"@)
            &&& spec_swap_remove(n2, "type"@).0 == spec_get(ent, "type"@)
        }),
{
    lemma_field_names_differ();
    law_swap_remove_takes_the_key(ent, "data"@);
    law_swap_remove_keeps_keys_distinct(ent, "data"@);
    law_swap_remove_keeps_other_keys(ent, "data"@, "uuid"@);
    law_swap_remove_keeps_other_keys(ent, "data"@, "type"@);
    let n1 = spec_swap_remove(ent, "data"@).1;
    law_swap_remove_takes_the_key(n1, "uuid"@);
    law_swap_remove_keeps_keys_distinct(n1, "uuid"@);
    law_swap_remove_keeps_other_keys(n1, "uuid"@, "type"@);
    let n2 = spec_swap_remove(n1, "uuid"@).1;
    law_swap_remove_takes_the_key(n2, "type"@);
}

/// A log compound that decodes holds each field with the type decoding
/// takes.
proof fn lemma_decoded_fields_have_their_types(e: Seq<(String, Nbt)>)
    requires
        keys_distinct(e),
        spec_get(e, "entity"@) matches Some(Nbt::Compound(c)) ==> keys_distinct(c@),
        spec_decode_log(e) is Ok,
    ensures
        (spec_get(e, "tick"@) matches Some(Nbt::Int(_))),
        (spec_get(e, "function"@) matches Some(Nbt::String(_))),
        (spec_get(e, "dimension"@) matches Some(Nbt::String(_))),
        spec_get(e, "rotation"@) matches Some(Nbt::List(r)) && forall|i: int|
            0 <= i < r@.len() ==> #[trigger] r@[i] is Float,
        spec_get(e, "pos"@) matches Some(Nbt::List(p)) && forall|i: int|
            0 <= i < p@.len() ==> #[trigger] p@[i] is Double,
        spec_get(e, "message"@) is Some,
        (spec_get(e, "level"@) matches Some(Nbt::String(_))),
        spec_level_from_name(string_field(e, "level"@)) is Some,
        spec_get(e, "entity"@) matches Some(Nbt::Compound(c)) && (spec_get(c@, "data"@) matches Some(
            Nbt::Compound(_),
        )) && (spec_get(c@, "uuid"@) matches Some(Nbt::IntArray(u)) && (u@.len() == 0 || u@.len()
            >= 4)) && (spec_get(c@, "type"@) matches Some(Nbt::String(_))),
{
    lemma_removal_chain(e);
    let e1 = spec_swap_remove(e, "tick"@).1;
    let e2 = spec_swap_remove(e1, "function"@).1;
    let e3 = spec_swap_remove(e2, "dimension"@).1;
    let e4 = spec_swap_remove(e3, "rotation"@).1;
    let e5 = spec_swap_remove(e4, "pos"@).1;
    let e6 = spec_swap_remove(e5, "message"@).1;
    let e7 = spec_swap_remove(e6, "level"@).1;
    assert(spec_take_int(e, "tick"@) is Ok);
    assert(spec_get(e, "tick"@) matches Some(Nbt::Int(_)));
    let t = spec_get(e, "tick"@)->Some_0->Int_0;
    assert(spec_take_string(e1, "function"@) is Ok);
    let f = string_field(e, "function"@);
    assert(spec_take_string(e2, "dimension"@) is Ok);
    let d = string_field(e, "dimension"@);
    assert(spec_decode_log(e) == spec_decode_rest(e3, t, f, d));
    assert(spec_take_list(e3, "rotation"@) is Ok);
    let r = spec_get(e, "rotation"@)->Some_0->List_0;
    assert(spec_rotation(r@) is Ok);
    assert forall|i: int| 0 <= i < r@.len() implies #[trigger] r@[i] is Float by {
        if !(r@[i] is Float) {
            lemma_first_non_float(r@, i);
        }
    }
    assert(spec_take_list(e4, "pos"@) is Ok);
    let p = spec_get(e, "pos"@)->Some_0->List_0;
    assert(spec_position(p@) is Ok);
    assert forall|i: int| 0 <= i < p@.len() implies #[trigger] p@[i] is Double by {
        if !(p@[i] is Double) {
            lemma_first_non_double(p@, i);
        }
    }
    assert(spec_take_field(e5, "message"@) is Ok);
    assert(spec_take_string(e6, "level"@) is Ok);
    assert(spec_take_compound(e7, "entity"@) is Ok);
    let c = spec_get(e, "entity"@)->Some_0->Compound_0;
    assert(spec_decode_entity(c@) is Ok);
    lemma_entity_removal_chain(c@);
    let n1 = spec_swap_remove(c@, "data"@).1;
    let n2 = spec_swap_remove(n1, "uuid"@).1;
    assert(spec_take_compound(c@, "data"@) is Ok);
    assert(spec_take_int_array(n1, "uuid"@) is Ok);
    assert(spec_take_string(n2, "type"@) is Ok);
}

/// Fields that decoding does not read change nothing: a log compound that
/// decodes still decodes into the same log when it is given one more field,
/// or a field set anew, under a name that is none of the eight a log has.
pub proof fn law_unknown_fields_are_ignored(e: Seq<(String, Nbt)>, key: String, value: Nbt)
    requires
        keys_distinct(e),
        spec_get(e, "entity"@) matches Some(Nbt::Compound(c)) ==> keys_distinct(c@),
        spec_decode_log(e) is Ok,
        key@ != "tick"@,
        key@ != "function"@,
        key@ != "dimension"@,
        key@ != "rotation"@,
        key@ != "pos"@,
        key@ != "message"@,
        key@ != "level"@,
        key@ != "entity"@,
    ensures
        spec_decode_log(spec_insert(e, key, value)) == spec_decode_log(e),
{
    lemma_decoded_fields_have_their_types(e);
    law_insert_then_get(e, key, value, "tick"@);
    law_insert_then_get(e, key, value, "function"@);
    law_insert_then_get(e, key, value, "dimension"@);
    law_insert_then_get(e, key, value, "rotation"@);
    law_insert_then_get(e, key, value, "pos"@);
    law_insert_then_get(e, key, value, "message"@);
    law_insert_then_get(e, key, value, "level"@);
    law_insert_then_get(e, key, value, "entity"@);
    let wider = spec_insert(e, key, value);
    let r = spec_get(e, "rotation"@)->Some_0->List_0;
    let p = spec_get(e, "pos"@)->Some_0->List_0;
    let c = spec_get(e, "entity"@)->Some_0->Compound_0;
    let data = spec_get(c@, "data"@)->Some_0->Compound_0;
    let u = spec_get(c@, "uuid"@)->Some_0->IntArray_0;
    law_decode_reads_fields_by_name(e, r, p, c, data, u);
    law_decode_reads_fields_by_name(wider, r, p, c, data, u);
}

/// Setting the value of entry `i` anew leaves every key where it was.
proof fn lemma_update_keeps_other_gets(e: Seq<(String, Nbt)>, i: int, v: Nbt, k: Seq<char>)
    requires
        keys_distinct(e),
        0 <= i < e.len(),
    ensures
        keys_distinct(e.update(i, (e[i].0, v))),
        k != e[i].0@ ==> spec_get(e.update(i, (e[i].0, v)), k) == spec_get(e, k),
        spec_get(e.update(i, (e[i].0, v)), e[i].0@) == Some(v),
{
    let u = e.update(i, (e[i].0, v));
    assert forall|a: int| 0 <= a < u.len() implies #[trigger] u[a].0 == e[a].0 by {}
    lemma_key_index_distinct(u, e[i].0@, i);
    lemma_key_index_absent(e, k);
    lemma_key_index_absent(u, k);
    if has_key(e, k) {
        let p = key_index(e, k);
        lemma_key_index_distinct(e, k, p);
        lemma_key_index_distinct(u, k, p);
    } else {
        assert(!has_key(u, k)) by {
            if has_key(u, k) {
                let q = choose|q: int| 0 <= q < u.len() && #[trigger] u[q].0@ == k;
                assert(e[q].0@ == k);
            }
        }
    }
}

/// Fields of the entity that decoding does not read change nothing either:
/// a log compound that decodes still decodes into the same log when its
/// entity compound is given one more field, or a field set anew, under a
/// name other than `data`, `uuid` and `type`.
pub proof fn law_unknown_entity_fields_are_ignored(
    e: Seq<(String, Nbt)>,
    i: int,
    entity: NbtCompound,
    key: String,
    value: Nbt,
    wider: NbtCompound,
)
    requires
        keys_distinct(e),
        0 <= i < e.len(),
        e[i].0@ == "entity"@,
        e[i].1 == Nbt::Compound(entity),
        keys_distinct(entity@),
        spec_decode_log(e) is Ok,
        key@ != "data"@,
        key@ != "uuid"@,
        key@ != "type"@,
        wider@ == spec_insert(entity@, key, value),
    ensures
        spec_decode_log(e.update(i, (e[i].0, Nbt::Compound(wider)))) == spec_decode_log(e),
{
    lemma_field_names_differ();
    lemma_key_index_distinct(e, "entity"@, i);
    lemma_decoded_fields_have_their_types(e);
    lemma_update_keeps_other_gets(e, i, Nbt::Compound(wider), "tick"@);
    lemma_update_keeps_other_gets(e, i, Nbt::Compound(wider), "function"@);
    lemma_update_keeps_other_gets(e, i, Nbt::Compound(wider), "dimension"@);
    lemma_update_keeps_other_gets(e, i, Nbt::Compound(wider), "rotation"@);
    lemma_update_keeps_other_gets(e, i, Nbt::Compound(wider), "pos"@);
    lemma_update_keeps_other_gets(e, i, Nbt::Compound(wider), "message"@);
    lemma_update_keeps_other_gets(e, i, Nbt::Compound(wider), "level"@);
    law_insert_then_get(entity@, key, value, "data"@);
    law_insert_then_get(entity@, key, value, "uuid"@);
    law_insert_then_get(entity@, key, value, "type"@);
    let changed = e.update(i, (e[i].0, Nbt::Compound(wider)));
    let r = spec_get(e, "rotation"@)->Some_0->List_0;
    let p = spec_get(e, "pos"@)->Some_0->List_0;
    let data = spec_get(entity@, "data"@)->Some_0->Compound_0;
    let u = spec_get(entity@, "uuid"@)->Some_0->IntArray_0;
    law_decode_reads_fields_by_name(e, r, p, entity, data, u);
    law_decode_reads_fields_by_name(changed, r, p, wider, data, u);
}

/// The outcomes of `spec_from_snbt` at which decoding stops instead of
/// going on: a `rotation` item that is not a float, a `pos` item that is not
/// a double, and a `uuid` array of one to three ints. No other outcome is a
/// `MismatchedType` with these labels, or with `int_array` and an int array.
pub open spec fn stands_for_panic(e: McLogErrorView) -> bool {
    match e {
        McLogErrorView::MismatchedType(label, v) => label == "float"@ || label == "double"@ || (
        label == "int_array"@ && v is IntArray),
        _ => false,
    }
}

/// Decoding `nbt` comes back, with a log or an error, without reaching any
/// of the points `stands_for_panic` names.
pub open spec fn decode_returns(nbt: Nbt) -> bool {
    !(spec_from_snbt(nbt) matches Err(e) && stands_for_panic(e))
}

/// Whether the error is one of those `stands_for_panic` names.
pub(crate) fn is_panic_error(e: &McLogError) -> (b: bool)
    ensures
        b == stands_for_panic(e@),
{
    match e {
        McLogError::MismatchedType(label, v) => {
            let l = String::from_str(label);
            let float = String::from_str("float");
            let double = String::from_str("double");
            let int_array = String::from_str("int_array");
            proof {
                reveal_strlit("float");
                reveal_strlit("double");
                reveal_strlit("int_array");
            }
            l == float || l == double || (l == int_array && matches!(v, Nbt::IntArray(_)))
        },
        _ => false,
    }
}

impl LogMessage {
    /// Decodes the SNBT compound that the datapack logs.
    ///
    /// Fields are taken out of the compound in the order `tick`, `function`,
    /// `dimension`, `rotation`, `pos`, `message`, `level` and `entity`, then
    /// `data`, `uuid` and `type` out of the entity; the first one that is
    /// missing or has the wrong type decides the error. A `rotation` or `pos`
    /// item that is not a float (double), or a `uuid` array of one to three
    /// ints, stops the decoding: `decode_returns` leaves those values out.
    pub fn from_snbt(nbt: Nbt) -> (r: Result<LogMessage, McLogError>)
        requires
            decode_returns(nbt),
        ensures
            result_view(r) == spec_from_snbt(nbt),
    {
        Self::decode(nbt)
    }

    /// What `from_snbt` does, on every value: at the points where that
    /// stops, the `MismatchedType` errors `stands_for_panic` names.
    pub(crate) fn decode(nbt: Nbt) -> (r: Result<LogMessage, McLogError>)
        ensures
            result_view(r) == spec_from_snbt(nbt),
    {
        let mut comp = match nbt {
            Nbt::Compound(c) => c,
            _ => return Err(McLogError::MismatchedType("compound", nbt)),
        };
        let tick = match take_int(&mut comp, "tick") {
            Ok(t) => t,
            Err(e) => return Err(e),
        };
        let function = match take_string(&mut comp, "function") {
            Ok(s) => s,
            Err(e) => return Err(e),
        };
        let dimension = match take_string(&mut comp, "dimension") {
            Ok(s) => s,
            Err(e) => return Err(e),
        };
        let rotation = match take_list(&mut comp, "rotation") {
            Ok(l) => match rotation_of(l) {
                Ok(r) => r,
                Err(e) => return Err(e),
            },
            Err(e) => return Err(e),
        };
        let pos = match take_list(&mut comp, "pos") {
            Ok(l) => match position_of(l) {
                Ok(p) => p,
                Err(e) => return Err(e),
            },
            Err(e) => return Err(e),
        };
        let message = match take_field(&mut comp, "message") {
            Ok(v) => v,
            Err(e) => return Err(e),
        };
        let level_name = match take_string(&mut comp, "level") {
            Ok(s) => s,
            Err(e) => return Err(e),
        };
        let level = match LogLevel::from_str(level_name.as_str()) {
            Some(l) => l,
            None => return Err(McLogError::UnknownLevel(level_name)),
        };
        let mut entity_comp = match take_compound(&mut comp, "entity") {
            Ok(c) => c,
            Err(e) => return Err(e),
        };
        let data = match take_compound(&mut entity_comp, "data") {
            Ok(c) => c,
            Err(e) => return Err(e),
        };
        let uuid = match take_int_array(&mut entity_comp, "uuid") {
            Ok(a) => match uuid_ints(a) {
                Ok(ints) => int_array_to_uuid(ints),
                Err(e) => return Err(e),
            },
            Err(e) => return Err(e),
        };
        let entity_type = match take_string(&mut entity_comp, "type") {
            Ok(s) => s,
            Err(e) => return Err(e),
        };
        let entity = LogEntity { data, uuid, entity_type };
        Ok(LogMessage { dimension, entity, function, level, message, pos, rotation, tick })
    }
}

} // verus!
