//! Fields: their identifiers, types and flags, and the schema that holds them.

use crate::assoc::bytes_eq;
use crate::document::string_from_utf8;
use crate::key::append_bytes;
use vstd::prelude::*;
use vstd::utf8::{decode_utf8, encode_utf8, valid_utf8};

verus! {

/// Identifies a field. A field keeps its id for good.
#[derive(Clone, Copy, Debug, PartialEq, Eq, Hash, Structural)]
pub struct FieldId(pub u16);

/// The type of a field's values.
#[derive(Clone, Copy, Debug, PartialEq, Eq, Structural)]
pub enum FieldDataType {
    Text,
    PlainString,
    Integer,
    Boolean,
    DateTime,
}

impl FieldDataType {
    /// The byte that stands for the type where a definition is stored.
    pub open spec fn code_spec(self) -> u8 {
        match self {
            FieldDataType::Text => 0,
            FieldDataType::PlainString => 1,
            FieldDataType::Integer => 2,
            FieldDataType::Boolean => 3,
            FieldDataType::DateTime => 4,
        }
    }

    /// The type that a byte stands for, if it stands for one.
    pub open spec fn of_code_spec(code: u8) -> Option<FieldDataType> {
        if code == 0 {
            Some(FieldDataType::Text)
        } else if code == 1 {
            Some(FieldDataType::PlainString)
        } else if code == 2 {
            Some(FieldDataType::Integer)
        } else if code == 3 {
            Some(FieldDataType::Boolean)
        } else if code == 4 {
            Some(FieldDataType::DateTime)
        } else {
            None
        }
    }

    /// The byte that stands for the type where a definition is stored.
    #[verifier::when_used_as_spec(code_spec)]
    pub fn code(self) -> (code: u8)
        ensures
            code == self.code_spec(),
    {
        match self {
            FieldDataType::Text => 0,
            FieldDataType::PlainString => 1,
            FieldDataType::Integer => 2,
            FieldDataType::Boolean => 3,
            FieldDataType::DateTime => 4,
        }
    }

    /// The type that a byte stands for, if it stands for one.
    pub fn of_code(code: u8) -> (data_type: Option<FieldDataType>)
        ensures
            data_type == FieldDataType::of_code_spec(code),
    {
        if code == 0 {
            Some(FieldDataType::Text)
        } else if code == 1 {
            Some(FieldDataType::PlainString)
        } else if code == 2 {
            Some(FieldDataType::Integer)
        } else if code == 3 {
            Some(FieldDataType::Boolean)
        } else if code == 4 {
            Some(FieldDataType::DateTime)
        } else {
            None
        }
    }
}

/// The bit of the flag that a field is indexed.
pub const FIELD_INDEXED: u32 = 1;

/// The bit of the flag that the values of a field are stored.
pub const FIELD_STORED: u32 = 2;

/// The bit of the flag that the values of a field are unique.
pub const FIELD_UNIQUE: u32 = 4;

/// The bit of the flag that a field is deleted.
pub const FIELD_DELETED: u32 = 8;

/// The flags of a field.
#[derive(Clone, Copy, Debug, PartialEq, Eq, Structural)]
pub struct FieldFlags {
    pub indexed: bool,
    pub stored: bool,
    pub unique: bool,
    pub deleted: bool,
}

/// The bit if the flag is set, and zero if not.
pub open spec fn bit_if(flag: bool, bit: u32) -> u32 {
    if flag {
        bit
    } else {
        0
    }
}

impl FieldFlags {
    /// The flags as a number: the sum of the bits of those that are set.
    pub open spec fn bits_spec(self) -> u32 {
        (bit_if(self.indexed, FIELD_INDEXED) + bit_if(self.stored, FIELD_STORED) + bit_if(
            self.unique,
            FIELD_UNIQUE,
        ) + bit_if(self.deleted, FIELD_DELETED)) as u32
    }

    /// No flag.
    pub fn empty() -> (flags: FieldFlags)
        ensures
            flags.bits_spec() == 0,
            !flags.indexed && !flags.stored && !flags.unique && !flags.deleted,
    {
        FieldFlags { indexed: false, stored: false, unique: false, deleted: false }
    }

    /// The flags as a number.
    #[verifier::when_used_as_spec(bits_spec)]
    pub fn bits(self) -> (bits: u32)
        ensures
            bits == self.bits_spec(),
    {
        let mut bits: u32 = 0;
        if self.indexed {
            bits = bits + FIELD_INDEXED;
        }
        if self.stored {
            bits = bits + FIELD_STORED;
        }
        if self.unique {
            bits = bits + FIELD_UNIQUE;
        }
        if self.deleted {
            bits = bits + FIELD_DELETED;
        }
        bits
    }

    /// The flags that a number stands for, if it is made of the bits of flags.
    pub fn from_bits(bits: u32) -> (flags: Option<FieldFlags>)
        ensures
            flags is Some <==> bits < 16,
            flags matches Some(flags) ==> flags.bits_spec() == bits && flags == flags_of_bits(bits),
    {
        if bits >= 16 {
            return None;
        }
        Some(
            FieldFlags {
                indexed: bits % 2 == 1,
                stored: (bits / 2) % 2 == 1,
                unique: (bits / 4) % 2 == 1,
                deleted: (bits / 8) % 2 == 1,
            },
        )
    }

    /// Whether every flag of `other` is set.
    pub fn contains(self, other: FieldFlags) -> (all: bool)
        ensures
            all == ((other.indexed ==> self.indexed) && (other.stored ==> self.stored) && (
            other.unique ==> self.unique) && (other.deleted ==> self.deleted)),
    {
        (!other.indexed || self.indexed) && (!other.stored || self.stored) && (!other.unique
            || self.unique) && (!other.deleted || self.deleted)
    }

    /// The flags of either.
    pub fn union(self, other: FieldFlags) -> (flags: FieldFlags)
        ensures
            flags.indexed == (self.indexed || other.indexed),
            flags.stored == (self.stored || other.stored),
            flags.unique == (self.unique || other.unique),
            flags.deleted == (self.deleted || other.deleted),
    {
        FieldFlags {
            indexed: self.indexed || other.indexed,
            stored: self.stored || other.stored,
            unique: self.unique || other.unique,
            deleted: self.deleted || other.deleted,
        }
    }
}

/// A definition of a field as plain data.
pub struct FieldDefinitionModel {
    pub name: Seq<char>,
    pub data_type: FieldDataType,
    pub flags: FieldFlags,
}

impl FieldDefinitionModel {
    /// The bytes stored for the definition: the byte of the type, the flags in
    /// one byte, and the name in UTF-8.
    pub open spec fn encoding(self) -> Seq<u8> {
        seq![self.data_type.code_spec(), self.flags.bits_spec() as u8] + encode_utf8(self.name)
    }

    /// The definition that stored bytes spell, if they spell one.
    pub open spec fn decoding(bytes: Seq<u8>) -> Option<FieldDefinitionModel> {
        if bytes.len() >= 2 && FieldDataType::of_code_spec(bytes[0]) is Some && bytes[1] < 16
            && valid_utf8(bytes.subrange(2, bytes.len() as int)) {
            Some(
                FieldDefinitionModel {
                    name: decode_utf8(bytes.subrange(2, bytes.len() as int)),
                    data_type: FieldDataType::of_code_spec(bytes[0]).unwrap(),
                    flags: flags_of_bits(bytes[1] as u32),
                },
            )
        } else {
            None
        }
    }

    /// A definition that is stored and read back is the definition that was
    /// stored.
    pub proof fn lemma_round_trip(self)
        ensures
            FieldDefinitionModel::decoding(self.encoding()) == Some(self),
    {
        let bytes = self.encoding();
        assert(bytes.subrange(2, bytes.len() as int) =~= encode_utf8(self.name));
        vstd::utf8::encode_utf8_valid_utf8(self.name);
        vstd::utf8::encode_utf8_decode_utf8(self.name);
        assert(bytes[1] == self.flags.bits_spec());
        assert(flags_of_bits(self.flags.bits_spec()) == self.flags);
    }
}

/// The flags that a number below sixteen stands for.
pub open spec fn flags_of_bits(bits: u32) -> FieldFlags {
    FieldFlags {
        indexed: bits % 2 == 1,
        stored: (bits / 2) % 2 == 1,
        unique: (bits / 4) % 2 == 1,
        deleted: (bits / 8) % 2 == 1,
    }
}

/// What a field is: its name, the type of its values and its flags.
#[derive(Debug)]
pub struct FieldDefinition {
    name: String,
    data_type: FieldDataType,
    flags: FieldFlags,
}

impl FieldDefinition {
    /// The name of the field as bytes.
    pub closed spec fn name_bytes(&self) -> Seq<u8> {
        encode_utf8(self.name@)
    }

    /// The name of the field.
    pub closed spec fn name_spec(&self) -> Seq<char> {
        self.name@
    }

    /// The type of the values of the field.
    pub closed spec fn data_type_spec(&self) -> FieldDataType {
        self.data_type
    }

    /// The flags of the field.
    pub closed spec fn flags_spec(&self) -> FieldFlags {
        self.flags
    }

    /// A definition of a field.
    pub fn new(name: String, data_type: FieldDataType, flags: FieldFlags) -> (definition:
        FieldDefinition)
        ensures
            definition.name_spec() == name@,
            definition.name_bytes() == encode_utf8(name@),
            definition.data_type_spec() == data_type,
            definition.flags_spec() == flags,
    {
        FieldDefinition { name: name, data_type: data_type, flags: flags }
    }

    /// The name of the field.
    pub fn name(&self) -> (name: &String)
        ensures
            name@ == self.name_spec(),
    {
        &self.name
    }

    /// The definition as plain data.
    pub open spec fn view(&self) -> FieldDefinitionModel {
        FieldDefinitionModel {
            name: self.name_spec(),
            data_type: self.data_type_spec(),
            flags: self.flags_spec(),
        }
    }

    /// The bytes to store for the definition.
    pub fn to_bytes(&self) -> (bytes: Vec<u8>)
        ensures
            bytes@ == self@.encoding(),
    {
        let mut bytes: Vec<u8> = Vec::new();
        bytes.push(self.data_type.code());
        bytes.push(self.flags.bits() as u8);
        append_bytes(&mut bytes, self.name.as_str().as_bytes());
        assert(bytes@ =~= self@.encoding());
        bytes
    }

    /// Reads a stored definition. Succeeds exactly on the bytes that `to_bytes`
    /// writes for some definition.
    pub fn from_bytes(bytes: &[u8]) -> (definition: Option<FieldDefinition>)
        ensures
            match definition {
                Some(definition) => FieldDefinitionModel::decoding(bytes@) == Some(definition@),
                None => FieldDefinitionModel::decoding(bytes@) is None,
            },
    {
        if bytes.len() < 2 {
            return None;
        }
        let data_type = match FieldDataType::of_code(bytes[0]) {
            Some(data_type) => data_type,
            None => {
                return None;
            },
        };
        let flags = match FieldFlags::from_bits(bytes[1] as u32) {
            Some(flags) => flags,
            None => {
                return None;
            },
        };
        match string_from_utf8(&bytes[2..bytes.len()]) {
            Ok(name) => Some(FieldDefinition { name, data_type, flags }),
            Err(_) => None,
        }
    }

    /// The type of the values of the field.
    #[verifier::when_used_as_spec(data_type_spec)]
    pub fn data_type(&self) -> (data_type: FieldDataType)
        ensures
            data_type == self.data_type_spec(),
    {
        self.data_type
    }

    /// The flags of the field.
    #[verifier::when_used_as_spec(flags_spec)]
    pub fn flags(&self) -> (flags: FieldFlags)
        ensures
            flags == self.flags_spec(),
    {
        self.flags
    }
}

/// Why a field was not added.
#[derive(Debug)]
pub enum AddFieldError {
    /// A field of the name is there already.
    FieldAlreadyExists(String),
    /// No id is left for the field.
    IdsExhausted,
}

/// The error is the one for adding a field of the name to the schema: that a
/// field of the name is there and not deleted; or, where there is none, that no
/// id is left.
pub open spec fn add_refused(error: AddFieldError, schema: Schema, name: Seq<char>) -> bool {
    match error {
        AddFieldError::FieldAlreadyExists(held) => schema.has_name(encode_utf8(name)) && held@
            == name,
        AddFieldError::IdsExhausted => !schema.has_name(encode_utf8(name))
            && schema.next_field_id() == 0x1_0000,
    }
}

/// Both byte strings spell definitions of fields that are not deleted, of one
/// name.
pub open spec fn same_live_name(first: Seq<u8>, second: Seq<u8>) -> bool {
    &&& FieldDefinitionModel::decoding(first) matches Some(a)
    &&& FieldDefinitionModel::decoding(second) matches Some(b)
    &&& !a.flags.deleted
    &&& !b.flags.deleted
    &&& encode_utf8(a.name) == encode_utf8(b.name)
}

/// The definitions cannot be read as the fields of a schema: they are more
/// than there are ids, one of them spells no definition, or two of them spell
/// fields of one name that are not deleted.
pub open spec fn unreadable(definitions: Seq<Vec<u8>>) -> bool {
    ||| definitions.len() > 0xffff
    ||| exists|i: int|
        0 <= i < definitions.len() && FieldDefinitionModel::decoding((#[trigger] definitions[i])@)
            is None
    ||| exists|i: int, j: int|
        0 <= i < j < definitions.len() && same_live_name(
            (#[trigger] definitions[i])@,
            (#[trigger] definitions[j])@,
        )
}

/// The fields of an index.
pub struct Schema {
    next_field_id: u32,
    fields: Vec<FieldDefinition>,
}

/// The first id that a field gets.
pub const FIRST_FIELD_ID: u32 = 1;

impl Schema {
    /// The definitions of the fields, in the order of their ids: the field at
    /// place `i` has the id of the first field plus `i`.
    pub closed spec fn fields(&self) -> Seq<FieldDefinition> {
        self.fields@
    }

    /// The id that the next field gets.
    pub closed spec fn next_field_id(&self) -> u32 {
        self.next_field_id
    }

    /// The place of a field among the fields.
    pub open spec fn place(field_id: FieldId) -> int {
        field_id.0 - FIRST_FIELD_ID
    }

    /// The schema has a field of this id, deleted or not.
    pub open spec fn has(&self, field_id: FieldId) -> bool {
        0 <= Schema::place(field_id) < self.fields().len()
    }

    /// The definition of a field that the schema has.
    pub open spec fn definition(&self, field_id: FieldId) -> FieldDefinition {
        self.fields()[Schema::place(field_id)]
    }

    /// The schema has a field of this id that is not deleted.
    pub open spec fn accepts(&self, field_id: FieldId) -> bool {
        self.has(field_id) && !self.definition(field_id).flags_spec().deleted
    }

    /// A field that is not deleted has the name.
    pub open spec fn has_name(&self, name: Seq<u8>) -> bool {
        exists|i: int|
            0 <= i < self.fields().len() && (#[trigger] self.fields()[i]).name_bytes() == name
                && !self.fields()[i].flags_spec().deleted
    }

    /// The ids are handed out one after the other from the first, and no two
    /// fields that are not deleted have one name.
    pub open spec fn wf(&self) -> bool {
        &&& self.next_field_id() == FIRST_FIELD_ID + self.fields().len()
        &&& self.next_field_id() <= 0x1_0000
        &&& forall|i: int, j: int|
            0 <= i < self.fields().len() && 0 <= j < self.fields().len() && i != j
                && !self.fields()[i].flags_spec().deleted && !self.fields()[j].flags_spec().deleted
                ==> self.fields()[i].name_bytes() != self.fields()[j].name_bytes()
    }

    /// A schema without fields.
    pub fn new() -> (schema: Schema)
        ensures
            schema.wf(),
            schema.fields() == Seq::<FieldDefinition>::empty(),
            schema.next_field_id() == FIRST_FIELD_ID,
    {
        Schema { next_field_id: FIRST_FIELD_ID, fields: Vec::new() }
    }

    /// Loads the schema from the stored definitions of its fields, in the order
    /// of their ids, the first field having the first id. Fails exactly where
    /// a definition cannot be read, two fields that are not deleted have one
    /// name, or the fields are more than there are ids.
    pub fn open(definitions: &Vec<Vec<u8>>) -> (schema: Option<Schema>)
        ensures
            match schema {
                Some(schema) => {
                    &&& schema.wf()
                    &&& schema.fields().len() == definitions@.len()
                    &&& forall|i: int|
                        0 <= i < definitions@.len() ==> FieldDefinitionModel::decoding(
                            (#[trigger] definitions@[i])@,
                        ) == Some(schema.fields()[i]@)
                },
                None => true,
            },
            schema is None <==> unreadable(definitions@),
    {
        if definitions.len() > 0xffff {
            return None;
        }
        let mut schema = Schema::new();
        let mut i: usize = 0;
        while i < definitions.len()
            invariant
                i <= definitions.len() <= 0xffff,
                schema.wf(),
                schema.fields().len() == i,
                forall|k: int|
                    0 <= k < i ==> FieldDefinitionModel::decoding((#[trigger] definitions@[k])@)
                        == Some(schema.fields()[k]@),
            decreases definitions.len() - i,
        {
            let definition = match FieldDefinition::from_bytes(definitions[i].as_slice()) {
                Some(definition) => definition,
                None => {
                    return None;
                },
            };
            if !definition.flags.deleted {
                match schema.get_field_by_name(definition.name.as_str()) {
                    Some(other) => {
                        proof {
                            let k = Schema::place(other);
                            assert(FieldDefinitionModel::decoding(definitions@[k]@) == Some(
                                schema.fields()[k]@,
                            ));
                            assert(same_live_name(definitions@[k]@, definitions@[i as int]@));
                        }
                        return None;
                    },
                    None => {},
                }
            }
            let ghost before = schema.fields();
            schema.fields.push(definition);
            schema.next_field_id = schema.next_field_id + 1;
            proof {
                let after = schema.fields();
                assert forall|a: int, b: int|
                    0 <= a < after.len() && 0 <= b < after.len() && a != b
                        && !after[a].flags_spec().deleted
                        && !after[b].flags_spec().deleted implies after[a].name_bytes()
                    != after[b].name_bytes() by {
                    if a < before.len() {
                        assert(after[a] == before[a]);
                    }
                    if b < before.len() {
                        assert(after[b] == before[b]);
                    }
                }
                assert forall|k: int| 0 <= k < i + 1 implies FieldDefinitionModel::decoding(
                    (#[trigger] definitions@[k])@,
                ) == Some(after[k]@) by {
                    if k < i {
                        assert(after[k] == before[k]);
                    }
                }
            }
            i += 1;
        }
        proof {
            schema.lemma_stored_schema_is_read(definitions@);
        }
        Some(schema)
    }

    /// The definitions stored for the fields of a schema, in the order of their
    /// ids, are read back as those fields: reading them does not fail.
    pub proof fn lemma_stored_schema_is_read(self, definitions: Seq<Vec<u8>>)
        requires
            self.wf(),
            definitions.len() == self.fields().len(),
            forall|i: int|
                0 <= i < definitions.len() ==> FieldDefinitionModel::decoding(
                    (#[trigger] definitions[i])@,
                ) == Some(self.fields()[i]@),
        ensures
            !unreadable(definitions),
    {
        assert forall|i: int, j: int| 0 <= i < j < definitions.len() implies !same_live_name(
            (#[trigger] definitions[i])@,
            (#[trigger] definitions[j])@,
        ) by {
            let a = self.fields()[i];
            let b = self.fields()[j];
            assert(FieldDefinitionModel::decoding(definitions[i]@) == Some(a@));
            assert(FieldDefinitionModel::decoding(definitions[j]@) == Some(b@));
            if !a.flags_spec().deleted && !b.flags_spec().deleted {
                assert(a.name_bytes() != b.name_bytes());
            }
        }
    }

    /// The number of fields, deleted ones among them.
    pub fn len(&self) -> (n: usize)
        ensures
            n == self.fields().len(),
    {
        self.fields.len()
    }

    /// Whether an id is left for one more field.
    pub fn has_free_id(&self) -> (free: bool)
        ensures
            free == (self.next_field_id() < 0x1_0000),
    {
        self.next_field_id < 0x1_0000
    }

    /// The definition of the field, if the schema has it.
    pub fn get(&self, field_id: FieldId) -> (definition: Option<&FieldDefinition>)
        requires
            self.wf(),
        ensures
            match definition {
                Some(definition) => self.has(field_id) && *definition == self.definition(field_id),
                None => !self.has(field_id),
            },
    {
        if (field_id.0 as u32) < FIRST_FIELD_ID {
            return None;
        }
        let place = (field_id.0 as u32 - FIRST_FIELD_ID) as usize;
        if place < self.fields.len() {
            Some(&self.fields[place])
        } else {
            None
        }
    }

    /// The id of the field of the name that is not deleted, if there is one.
    pub fn get_field_by_name(&self, name: &str) -> (field_id: Option<FieldId>)
        requires
            self.wf(),
        ensures
            match field_id {
                Some(field_id) => self.accepts(field_id) && self.definition(field_id).name_bytes()
                    == encode_utf8(name@),
                None => !self.has_name(encode_utf8(name@)),
            },
    {
        let mut i: usize = 0;
        while i < self.fields.len()
            invariant
                i <= self.fields.len(),
                self.wf(),
                forall|j: int|
                    0 <= j < i ==> !((#[trigger] self.fields()[j]).name_bytes() == encode_utf8(name@)
                        && !self.fields()[j].flags_spec().deleted),
            decreases self.fields.len() - i,
        {
            if !self.fields[i].flags.deleted && bytes_eq(
                self.fields[i].name.as_str().as_bytes(),
                name.as_bytes(),
            ) {
                return Some(FieldId((i as u32 + FIRST_FIELD_ID) as u16));
            }
            i += 1;
        }
        None
    }

    /// Adds a field and hands back its id, the next in line. Fails, changing
    /// nothing, exactly where a field of the name is there and not deleted, or
    /// no id is left.
    pub fn add_field(&mut self, name: String, data_type: FieldDataType, flags: FieldFlags) -> (result:
        Result<FieldId, AddFieldError>)
        requires
            old(self).wf(),
        ensures
            final(self).wf(),
            match result {
                Ok(field_id) => {
                    &&& !old(self).has_name(encode_utf8(name@))
                    &&& old(self).next_field_id() < 0x1_0000
                    &&& field_id.0 == old(self).next_field_id()
                    &&& final(self).next_field_id() == old(self).next_field_id() + 1
                    &&& final(self).fields().len() == old(self).fields().len() + 1
                    &&& final(self).fields().subrange(0, old(self).fields().len() as int) == old(
                        self,
                    ).fields()
                    &&& final(self).definition(field_id).name_spec() == name@
                    &&& final(self).definition(field_id).data_type_spec() == data_type
                    &&& final(self).definition(field_id).flags_spec() == flags
                },
                Err(error) => {
                    &&& add_refused(error, *old(self), name@)
                    &&& final(self).fields() == old(self).fields()
                    &&& final(self).next_field_id() == old(self).next_field_id()
                },
            },
    {
        if self.get_field_by_name(name.as_str()).is_some() {
            return Err(AddFieldError::FieldAlreadyExists(name));
        }
        if self.next_field_id >= 0x1_0000 {
            return Err(AddFieldError::IdsExhausted);
        }
        let field_id = FieldId(self.next_field_id as u16);
        let definition = FieldDefinition::new(name, data_type, flags);
        self.fields.push(definition);
        self.next_field_id = self.next_field_id + 1;
        proof {
            let before = old(self).fields();
            let after = self.fields();
            assert(after.subrange(0, before.len() as int) =~= before);
            assert forall|i: int, j: int|
                0 <= i < after.len() && 0 <= j < after.len() && i != j
                    && !after[i].flags_spec().deleted
                    && !after[j].flags_spec().deleted implies after[i].name_bytes()
                != after[j].name_bytes() by {
                if i < before.len() {
                    assert(after[i] == before[i]);
                }
                if j < before.len() {
                    assert(after[j] == before[j]);
                }
            }
        }
        Ok(field_id)
    }

    /// Marks the field as deleted. The field keeps its id and what is stored of
    /// it, and takes no more documents. Hands back whether there was such a
    /// field that was not deleted yet.
    pub fn delete_field(&mut self, field_id: FieldId) -> (deleted: bool)
        requires
            old(self).wf(),
        ensures
            final(self).wf(),
            deleted == old(self).accepts(field_id),
            final(self).next_field_id() == old(self).next_field_id(),
            final(self).fields().len() == old(self).fields().len(),
            !final(self).accepts(field_id),
            forall|other: FieldId|
                other != field_id ==> #[trigger] final(self).has(other) == old(self).has(other) && (
                old(self).has(other) ==> final(self).definition(other) == old(self).definition(
                    other,
                )),
            deleted ==> {
                &&& final(self).definition(field_id).name_spec() == old(self).definition(
                    field_id,
                ).name_spec()
                &&& final(self).definition(field_id).data_type_spec() == old(self).definition(
                    field_id,
                ).data_type_spec()
                &&& final(self).definition(field_id).flags_spec() == (FieldFlags {
                    deleted: true,
                    ..old(self).definition(field_id).flags_spec()
                })
            },
            !deleted ==> final(self).fields() == old(self).fields(),
    {
        if (field_id.0 as u32) < FIRST_FIELD_ID {
            return false;
        }
        let place = (field_id.0 as u32 - FIRST_FIELD_ID) as usize;
        if place >= self.fields.len() || self.fields[place].flags.deleted {
            return false;
        }
        self.fields[place].flags.deleted = true;
        proof {
            let before = old(self).fields();
            let after = self.fields();
            assert forall|i: int| 0 <= i < after.len() && i != place implies after[i]
                == before[i] by {}
            assert(after[place as int].name_bytes() == before[place as int].name_bytes());
        }
        true
    }
}

impl Clone for FieldDefinition {
    /// Another definition of the same name, type and flags.
    fn clone(&self) -> (copy: FieldDefinition)
        ensures
            copy@ == self@,
            copy.name_bytes() == self.name_bytes(),
    {
        FieldDefinition { name: self.name.clone(), data_type: self.data_type, flags: self.flags }
    }
}

/// The two schemas have the same fields under the same ids.
pub open spec fn same_fields(a: Schema, b: Schema) -> bool {
    &&& a.next_field_id() == b.next_field_id()
    &&& a.fields().len() == b.fields().len()
    &&& forall|i: int|
        0 <= i < a.fields().len() ==> (#[trigger] a.fields()[i])@ == b.fields()[i]@
            && a.fields()[i].name_bytes() == b.fields()[i].name_bytes()
}

impl Clone for Schema {
    /// Another schema of the same fields.
    fn clone(&self) -> (copy: Schema)
        ensures
            same_fields(copy, *self),
            self.wf() ==> copy.wf(),
    {
        let mut fields: Vec<FieldDefinition> = Vec::new();
        let mut i: usize = 0;
        while i < self.fields.len()
            invariant
                i <= self.fields@.len(),
                fields@.len() == i,
                forall|j: int|
                    0 <= j < i ==> (#[trigger] fields@[j])@ == self.fields@[j]@
                        && fields@[j].name_bytes() == self.fields@[j].name_bytes(),
            decreases self.fields.len() - i,
        {
            fields.push(self.fields[i].clone());
            i += 1;
        }
        Schema { next_field_id: self.next_field_id, fields }
    }
}

} // verus!
