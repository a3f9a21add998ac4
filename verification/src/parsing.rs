//! Parsing messages into device data.

use crate::endian::{
    le_value, read_i16_le, read_i32_le, read_i64_le, read_u16_le, read_u32_le, read_u64_le,
    signed_value,
};
use std::collections::HashMap;
use vstd::prelude::*;

verus! {

/// A sensor.
#[derive(Clone)]
pub struct Device {
    pub id: u16,
    pub name: String,
    pub params: Vec<Parameter>,
}

/// Possible parameter types.
#[derive(Copy, Clone, Debug, PartialEq, Eq, Structural)]
pub enum ParamType {
    Bool,
    Uint8,
    Int8,
    Uint16,
    Int16,
    Uint32,
    Int32,
    Uint64,
    Int64,
    Float,
    Double,
}

/// A device parameter.
#[derive(Clone, PartialEq, Eq)]
pub struct Parameter {
    pub name: String,
    pub number: u8,
    pub kind: ParamType,
    pub read: bool,
    pub write: bool,
}

/// A decoded parameter value. `Float` and `Double` hold the bits of an
/// IEEE 754 number of single and of double precision.
#[derive(Copy, Clone, Debug, PartialEq, Eq, Structural)]
pub enum ParamValue {
    Bool(bool),
    Uint8(u8),
    Int8(i8),
    Uint16(u16),
    Int16(i16),
    Uint32(u32),
    Int32(i32),
    Uint64(u64),
    Int64(i64),
    Float(u32),
    Double(u64),
}

/// Why a payload could not be decoded.
#[derive(Copy, Clone, Debug, PartialEq, Eq, Structural)]
pub enum DecodeError {
    /// No device of that id is registered.
    UnknownDevice,
    /// The payload ends before the selection bitmask, or before the last
    /// selected parameter, is complete.
    PayloadTooShort,
}

impl ParamType {
    /// How many bytes a value of this type takes in a payload.
    pub open spec fn spec_width(self) -> nat {
        match self {
            ParamType::Bool | ParamType::Uint8 | ParamType::Int8 => 1,
            ParamType::Uint16 | ParamType::Int16 => 2,
            ParamType::Uint32 | ParamType::Int32 | ParamType::Float => 4,
            ParamType::Uint64 | ParamType::Int64 | ParamType::Double => 8,
        }
    }

    /// How many bytes a value of this type takes in a payload.
    pub fn width(self) -> (width: usize)
        ensures
            width == self.spec_width(),
    {
        match self {
            ParamType::Bool | ParamType::Uint8 | ParamType::Int8 => 1,
            ParamType::Uint16 | ParamType::Int16 => 2,
            ParamType::Uint32 | ParamType::Int32 | ParamType::Float => 4,
            ParamType::Uint64 | ParamType::Int64 | ParamType::Double => 8,
        }
    }
}

/// The value of type `kind` that `bytes` spell, where `bytes` are as many
/// bytes as the type is wide. Numbers of more than one byte stand least
/// significant byte first; a `Bool` is true unless its byte is zero.
pub open spec fn value_of(kind: ParamType, bytes: Seq<u8>) -> ParamValue {
    match kind {
        ParamType::Bool => ParamValue::Bool(bytes[0] != 0),
        ParamType::Uint8 => ParamValue::Uint8(bytes[0]),
        ParamType::Int8 => ParamValue::Int8(signed_value(bytes[0] as nat, 0x80) as i8),
        ParamType::Uint16 => ParamValue::Uint16(le_value(bytes) as u16),
        ParamType::Int16 => ParamValue::Int16(signed_value(le_value(bytes), 0x8000) as i16),
        ParamType::Uint32 => ParamValue::Uint32(le_value(bytes) as u32),
        ParamType::Int32 => ParamValue::Int32(signed_value(le_value(bytes), 0x8000_0000) as i32),
        ParamType::Uint64 => ParamValue::Uint64(le_value(bytes) as u64),
        ParamType::Int64 => ParamValue::Int64(
            signed_value(le_value(bytes), 0x8000_0000_0000_0000) as i64,
        ),
        ParamType::Float => ParamValue::Float(le_value(bytes) as u32),
        ParamType::Double => ParamValue::Double(le_value(bytes) as u64),
    }
}

/// Read a value of type `kind` from the head of `bytes`.
pub fn read_value(kind: ParamType, bytes: &[u8]) -> (value: ParamValue)
    requires
        bytes@.len() >= kind.spec_width(),
    ensures
        value == value_of(kind, bytes@.take(kind.spec_width() as int)),
{
    match kind {
        ParamType::Bool => ParamValue::Bool(bytes[0] != 0),
        ParamType::Uint8 => ParamValue::Uint8(bytes[0]),
        ParamType::Int8 => {
            let byte = bytes[0];
            if byte < 0x80 {
                ParamValue::Int8(byte as i8)
            } else {
                ParamValue::Int8((byte as i16 - 0x100) as i8)
            }
        },
        ParamType::Uint16 => ParamValue::Uint16(read_u16_le(bytes)),
        ParamType::Int16 => ParamValue::Int16(read_i16_le(bytes)),
        ParamType::Uint32 => ParamValue::Uint32(read_u32_le(bytes)),
        ParamType::Int32 => ParamValue::Int32(read_i32_le(bytes)),
        ParamType::Uint64 => ParamValue::Uint64(read_u64_le(bytes)),
        ParamType::Int64 => ParamValue::Int64(read_i64_le(bytes)),
        ParamType::Float => ParamValue::Float(read_u32_le(bytes)),
        ParamType::Double => ParamValue::Double(read_u64_le(bytes)),
    }
}

/// The device schemas that a decoder consults, by device id.
///
/// A payload names a parameter by its position in the list of its device,
/// and the parameter at that position gives the name and the type, so that
/// the one map from id to device is all that decoding reads.
pub struct Registry {
    device_map: HashMap<u16, Device>,
}

impl View for Registry {
    type V = Map<u16, Device>;

    closed spec fn view(&self) -> Map<u16, Device> {
        self.device_map@
    }
}

/// The registry that a list of devices gives: each device under its id,
/// and of two devices with one id the later.
pub open spec fn registry_of(devices: Seq<Device>) -> Map<u16, Device>
    decreases devices.len(),
{
    if devices.len() == 0 {
        Map::empty()
    } else {
        registry_of(devices.drop_last()).insert(devices.last().id, devices.last())
    }
}

impl Registry {
    /// A registry that knows no device.
    pub fn new() -> (registry: Registry)
        ensures
            registry@ == Map::<u16, Device>::empty(),
    {
        Registry { device_map: HashMap::new() }
    }

    /// Whether a device of this id is registered.
    pub fn contains(&self, device_id: u16) -> (known: bool)
        ensures
            known == self@.contains_key(device_id),
    {
        broadcast use vstd::std_specs::hash::group_hash_axioms;

        self.device_map.contains_key(&device_id)
    }
}

/// Initialize device parameters from `devices`, the parsed schema.
/// This function must be called before `parse_device_data`.
///
/// What the registry held before is replaced as a whole.
pub fn initialize_parser_maps(registry: &mut Registry, devices: Vec<Device>)
    ensures
        final(registry)@ == registry_of(devices@),
{
    broadcast use vstd::std_specs::hash::group_hash_axioms;

    let ghost all = devices@;
    let mut device_map: HashMap<u16, Device> = HashMap::new();
    for device in iter: devices
        invariant
            iter.seq() == all,
            device_map@ == registry_of(all.take(iter.index() as int)),
    {
        proof {
            assert(all.take(iter.index() + 1).drop_last() =~= all.take(iter.index() as int));
        }
        device_map.insert(device.id, device);
    }
    proof {
        assert(all.take(all.len() as int) =~= all);
    }
    registry.device_map = device_map;
}

/// Whether bit `position` of `bitmask` is set, bit 0 being the least
/// significant.
pub open spec fn bit_is_set(bitmask: u16, position: nat) -> bool {
    bitmask & (1u16 << (position as u16)) != 0
}

/// The positions below `upto` whose bit is set in `bitmask`, in ascending
/// order.
pub open spec fn selected_below(bitmask: u16, upto: nat) -> Seq<int>
    decreases upto,
{
    if upto == 0 {
        Seq::<int>::empty()
    } else {
        let position = (upto - 1) as nat;
        let earlier = selected_below(bitmask, position);
        if bit_is_set(bitmask, position) {
            earlier.push(position as int)
        } else {
            earlier
        }
    }
}

/// The positions that `bitmask` selects in a list of `count` parameters,
/// in ascending order: those below 16 at which the list holds a parameter
/// and the bit is set. A parameter's position in the list, not its
/// `number`, is what a bit stands for.
pub open spec fn selected_positions(count: nat, bitmask: u16) -> Seq<int> {
    selected_below(
        bitmask,
        if count < 16 {
            count
        } else {
            16
        },
    )
}

/// The names of the parameters at `positions`.
pub open spec fn names_at(params: Seq<Parameter>, positions: Seq<int>) -> Seq<Seq<char>> {
    Seq::new(positions.len(), |k: int| params[positions[k]].name@)
}

/// The names that a list of strings holds.
pub open spec fn name_views(names: Seq<String>) -> Seq<Seq<char>> {
    Seq::new(names.len(), |k: int| names[k]@)
}

impl Registry {
    /// The device of this id.
    fn device(&self, device_id: u16) -> (device: &Device)
        requires
            self@.contains_key(device_id),
        ensures
            *device == self@[device_id],
    {
        broadcast use vstd::std_specs::hash::group_hash_axioms;

        self.device_map.get(&device_id).unwrap()
    }
}

/// Decode `bitmask` into human-readable names.
pub fn decode_params(registry: &Registry, device_id: u16, bitmask: u16) -> (names: Vec<String>)
    requires
        registry@.contains_key(device_id),
    ensures
        name_views(names@) == names_at(
            registry@[device_id].params@,
            selected_positions(registry@[device_id].params@.len(), bitmask),
        ),
{
    let device = registry.device(device_id);
    let limit: usize = if device.params.len() < 16 {
        device.params.len()
    } else {
        16
    };
    let mut names: Vec<String> = Vec::with_capacity(16);
    let mut i: usize = 0;
    while i < limit
        invariant
            i <= limit <= 16,
            limit <= device.params@.len(),
            name_views(names@) == names_at(device.params@, selected_below(bitmask, i as nat)),
        decreases limit - i,
    {
        let ghost before = selected_below(bitmask, i as nat);
        let ghost earlier = names@;
        assert(name_views(earlier).len() == names_at(device.params@, before).len());
        let set = bitmask & (1u16 << (i as u16)) != 0;
        assert(set == bit_is_set(bitmask, i as nat));
        if set {
            let name: String = device.params[i].name.clone();
            names.push(name);
        }
        i += 1;
        assert(selected_below(bitmask, i as nat) == if set {
            before.push(i - 1)
        } else {
            before
        });
        assert forall|k: int| 0 <= k < names@.len() implies name_views(names@)[k] == names_at(
            device.params@,
            selected_below(bitmask, i as nat),
        )[k] by {
            if k < earlier.len() {
                assert(name_views(earlier)[k] == names_at(device.params@, before)[k]);
            }
        }
        assert(name_views(names@) =~= names_at(
            device.params@,
            selected_below(bitmask, i as nat),
        ));
    }
    names
}

/// The selected positions are exactly the positions below `upto` whose
/// bit is set, each once and in ascending order: a parameter whose bit is
/// not set is not selected.
pub proof fn lemma_selected_below(bitmask: u16, upto: nat)
    ensures
        forall|k: int|
            0 <= k < selected_below(bitmask, upto).len() ==> {
                &&& 0 <= (#[trigger] selected_below(bitmask, upto)[k]) < upto
                &&& bit_is_set(bitmask, selected_below(bitmask, upto)[k] as nat)
            },
        forall|j: int, k: int|
            0 <= j < k < selected_below(bitmask, upto).len() ==> selected_below(bitmask, upto)[j]
                < selected_below(bitmask, upto)[k],
        forall|position: nat|
            position < upto && bit_is_set(bitmask, position) ==> selected_below(
                bitmask,
                upto,
            ).contains(position as int),
    decreases upto,
{
    if upto > 0 {
        let last = (upto - 1) as nat;
        let earlier = selected_below(bitmask, last);
        let all = selected_below(bitmask, upto);
        lemma_selected_below(bitmask, last);
        assert forall|position: nat| position < upto && bit_is_set(bitmask, position) implies all.contains(
            position as int,
        ) by {
            if position < last {
                let k = choose|k: int| 0 <= k < earlier.len() && earlier[k] == position as int;
                assert(all[k] == position as int);
            } else {
                assert(all[all.len() - 1] == position as int);
            }
        }
    }
}

/// Where the field after those at `positions` starts in a payload: behind
/// the two bytes of the bitmask and the fields at `positions`, each as
/// wide as its type.
pub open spec fn fields_end(params: Seq<Parameter>, positions: Seq<int>) -> int
    decreases positions.len(),
{
    if positions.len() == 0 {
        2
    } else {
        fields_end(params, positions.drop_last()) + params[positions.last()].kind.spec_width()
    }
}

/// The `k`-th selected field of `payload`: the name of the parameter at
/// `positions[k]`, and the value of its type that stands behind the
/// fields before it.
pub open spec fn field_at(
    params: Seq<Parameter>,
    positions: Seq<int>,
    payload: Seq<u8>,
    k: int,
) -> (Seq<char>, ParamValue) {
    let param = params[positions[k]];
    let start = fields_end(params, positions.take(k));
    (param.name@, value_of(param.kind, payload.subrange(start, start + param.kind.spec_width())))
}

/// The fields of `payload` for the parameters at `positions`, in order.
pub open spec fn fields_of(params: Seq<Parameter>, positions: Seq<int>, payload: Seq<u8>) -> Seq<
    (Seq<char>, ParamValue),
> {
    Seq::new(positions.len(), |k: int| field_at(params, positions, payload, k))
}

/// What `payload` holds for a device with parameters `params`. The first
/// two bytes are the selection bitmask, least significant byte first; the
/// selected fields follow in ascending order of position. The payload is
/// too short where it ends before the bitmask or before the last selected
/// field does.
pub open spec fn decoded(params: Seq<Parameter>, payload: Seq<u8>) -> Result<
    Seq<(Seq<char>, ParamValue)>,
    DecodeError,
> {
    if payload.len() < 2 {
        Err(DecodeError::PayloadTooShort)
    } else {
        let bitmask = le_value(payload.take(2)) as u16;
        let positions = selected_positions(params.len(), bitmask);
        if fields_end(params, positions) > payload.len() {
            Err(DecodeError::PayloadTooShort)
        } else {
            Ok(fields_of(params, positions, payload))
        }
    }
}

/// What `payload` holds for the device `device_id` of `registry`.
pub open spec fn parsed(registry: Map<u16, Device>, device_id: u16, payload: Seq<u8>) -> Result<
    Seq<(Seq<char>, ParamValue)>,
    DecodeError,
> {
    if !registry.contains_key(device_id) {
        Err(DecodeError::UnknownDevice)
    } else {
        decoded(registry[device_id].params@, payload)
    }
}

/// The fields that a list of pairs holds.
pub open spec fn field_views(fields: Seq<(String, ParamValue)>) -> Seq<(Seq<char>, ParamValue)> {
    Seq::new(fields.len(), |k: int| (fields[k].0@, fields[k].1))
}

/// The view of what `parse_device_data` returns.
pub open spec fn outcome_view(outcome: Result<Vec<(String, ParamValue)>, DecodeError>) -> Result<
    Seq<(Seq<char>, ParamValue)>,
    DecodeError,
> {
    match outcome {
        Ok(fields) => Ok(field_views(fields@)),
        Err(error) => Err(error),
    }
}

/// Selecting up to a higher position only adds fields at the end.
proof fn lemma_fields_end_grows(params: Seq<Parameter>, bitmask: u16, lower: nat, upper: nat)
    requires
        lower <= upper,
    ensures
        fields_end(params, selected_below(bitmask, lower)) <= fields_end(
            params,
            selected_below(bitmask, upper),
        ),
    decreases upper,
{
    if lower < upper {
        let position = (upper - 1) as nat;
        lemma_fields_end_grows(params, bitmask, lower, position);
        let earlier = selected_below(bitmask, position);
        if bit_is_set(bitmask, position) {
            assert(earlier.push(position as int).drop_last() =~= earlier);
        }
    }
}

/// One more position adds one field and leaves the others as they are.
proof fn lemma_fields_push(
    params: Seq<Parameter>,
    positions: Seq<int>,
    payload: Seq<u8>,
    position: int,
)
    ensures
        fields_of(params, positions.push(position), payload) == fields_of(
            params,
            positions,
            payload,
        ).push(field_at(params, positions.push(position), payload, positions.len() as int)),
        fields_end(params, positions.push(position)) == fields_end(params, positions)
            + params[position].kind.spec_width(),
        positions.push(position).take(positions.len() as int) == positions,
{
    let longer = positions.push(position);
    assert(longer.drop_last() =~= positions);
    assert(longer.take(positions.len() as int) =~= positions);
    assert forall|k: int| 0 <= k < positions.len() implies field_at(params, longer, payload, k)
        == field_at(params, positions, payload, k) by {
        assert(longer.take(k) =~= positions.take(k));
    }
    assert(fields_of(params, longer, payload) =~= fields_of(params, positions, payload).push(
        field_at(params, longer, payload, positions.len() as int),
    ));
}

/// Parse a `DeviceData` packet into a list of parameter names and values.
///
/// Fails if `device_id` is not registered, or if `payload` is too short
/// for its bitmask and the parameters that the bitmask selects.
pub fn parse_device_data(registry: &Registry, payload: &[u8], device_id: u16) -> (outcome: Result<
    Vec<(String, ParamValue)>,
    DecodeError,
>)
    ensures
        outcome_view(outcome) == parsed(registry@, device_id, payload@),
        !registry@.contains_key(device_id) ==> outcome == Err::<
            Vec<(String, ParamValue)>,
            DecodeError,
        >(DecodeError::UnknownDevice),
        registry@.contains_key(device_id) && payload@.len() < 2 ==> outcome == Err::<
            Vec<(String, ParamValue)>,
            DecodeError,
        >(DecodeError::PayloadTooShort),
{
    if !registry.contains(device_id) {
        return Err(DecodeError::UnknownDevice);
    }
    if payload.len() < 2 {
        return Err(DecodeError::PayloadTooShort);
    }
    let device = registry.device(device_id);
    let bitmask = read_u16_le(payload);
    let limit: usize = if device.params.len() < 16 {
        device.params.len()
    } else {
        16
    };
    let ghost params = device.params@;
    let mut fields: Vec<(String, ParamValue)> = Vec::with_capacity(16);
    let mut cursor: usize = 2;
    let mut i: usize = 0;
    proof {
        assert(field_views(fields@) =~= fields_of(
            params,
            selected_below(bitmask, 0),
            payload@,
        ));
    }
    while i < limit
        invariant
            i <= limit <= 16,
            limit <= params.len(),
            params == device.params@,
            registry@.contains_key(device_id),
            registry@[device_id].params@ == params,
            limit == if params.len() < 16 {
                params.len()
            } else {
                16
            },
            payload@.len() >= 2,
            bitmask == le_value(payload@.take(2)),
            cursor <= payload@.len(),
            cursor == fields_end(params, selected_below(bitmask, i as nat)),
            field_views(fields@) == fields_of(params, selected_below(bitmask, i as nat), payload@),
        decreases limit - i,
    {
        let ghost before = selected_below(bitmask, i as nat);
        let ghost earlier = fields@;
        let set = bitmask & (1u16 << (i as u16)) != 0;
        assert(set == bit_is_set(bitmask, i as nat));
        if set {
            let param = &device.params[i];
            let width = param.kind.width();
            proof {
                lemma_fields_push(params, before, payload@, i as int);
            }
            if width > payload.len() - cursor {
                proof {
                    lemma_fields_end_grows(params, bitmask, (i + 1) as nat, limit as nat);
                }
                return Err(DecodeError::PayloadTooShort);
            }
            let field = &payload[cursor..cursor + width];
            assert(field@.take(width as int) =~= payload@.subrange(
                cursor as int,
                cursor + width,
            ));
            let value = read_value(param.kind, field);
            fields.push((param.name.clone(), value));
            cursor += width;
            assert(field_views(fields@) =~= field_views(earlier).push(
                field_at(params, before.push(i as int), payload@, before.len() as int),
            ));
        }
        i += 1;
    }
    Ok(fields)
}

} // verus!
