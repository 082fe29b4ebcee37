//! Source-level variables and where their values are.

use vstd::prelude::*;
use vstd::string::*;

use crate::text::{decimal, hex_byte, push_decimal, push_hex_byte, say, say1};

verus! {

/// A position in a source file.
pub struct FileLineCol {
    pub uri: String,
    pub line: u32,
    pub column: u32,
}

impl FileLineCol {
    /// The position in square brackets.
    pub open spec fn text(&self) -> Seq<char> {
        "["@ + self.uri@ + "@"@ + decimal(self.line as nat) + ":"@ + decimal(self.column as nat)
            + "]"@
    }
}

/// Where the value of a variable is.
pub enum DebugVarLocation {
    /// At a position of the stack; zero is the top.
    Stack(u8),
    /// In memory at a word address.
    Memory(u32),
    /// A constant field element.
    Const(u64),
    /// In a local slot.
    Local(u16),
    /// Where the bytes of an expression say.
    Expression(Vec<u8>),
}

/// The first `k` bytes in hexadecimal with spaces between them.
pub open spec fn hex_bytes(bytes: Seq<u8>, k: nat) -> Seq<char>
    decreases k,
{
    if k == 0 {
        Seq::empty()
    } else if k == 1 {
        hex_byte(bytes[0])
    } else {
        hex_bytes(bytes, (k - 1) as nat) + " "@ + hex_byte(bytes[k - 1])
    }
}

impl DebugVarLocation {
    pub open spec fn text(&self) -> Seq<char> {
        match self {
            DebugVarLocation::Stack(pos) => "stack["@ + decimal(*pos as nat) + "]"@,
            DebugVarLocation::Memory(addr) => "mem["@ + decimal(*addr as nat) + "]"@,
            DebugVarLocation::Const(val) => "const("@ + decimal(*val as nat) + ")"@,
            DebugVarLocation::Local(idx) => "local["@ + decimal(*idx as nat) + "]"@,
            DebugVarLocation::Expression(bytes) => "expr("@ + hex_bytes(bytes@, bytes@.len()) + ")"@,
        }
    }

    /// The location as text.
    pub fn to_string(&self) -> (text: String)
        ensures
            text@ == self.text(),
    {
        match self {
            DebugVarLocation::Stack(pos) => say1("stack[", *pos as u64, "]"),
            DebugVarLocation::Memory(addr) => say1("mem[", *addr as u64, "]"),
            DebugVarLocation::Const(val) => say1("const(", *val, ")"),
            DebugVarLocation::Local(idx) => say1("local[", *idx as u64, "]"),
            DebugVarLocation::Expression(bytes) => {
                let mut text = say("expr(");
                let ghost head = text@;
                let mut i: usize = 0;
                assert(head + hex_bytes(bytes@, 0) =~= head);
                while i < bytes.len()
                    invariant
                        i <= bytes@.len(),
                        text@ == head + hex_bytes(bytes@, i as nat),
                    decreases bytes@.len() - i,
                {
                    if i > 0 {
                        text.append(" ");
                    }
                    push_hex_byte(&mut text, bytes[i]);
                    assert(text@ =~= head + hex_bytes(bytes@, (i + 1) as nat));
                    i += 1;
                }
                text.append(")");
                text
            },
        }
    }
}

/// A variable at a point of the program.
pub struct DebugVarInfo {
    name: String,
    type_id: Option<u32>,
    arg_index: Option<u32>,
    location: Option<FileLineCol>,
    value_location: DebugVarLocation,
}

impl DebugVarInfo {
    pub closed spec fn spec_name(&self) -> Seq<char> {
        self.name@
    }

    pub closed spec fn spec_type_id(&self) -> Option<u32> {
        self.type_id
    }

    pub closed spec fn spec_arg_index(&self) -> Option<u32> {
        self.arg_index
    }

    pub closed spec fn spec_location(&self) -> Option<FileLineCol> {
        self.location
    }

    pub closed spec fn spec_value_location(&self) -> DebugVarLocation {
        self.value_location
    }

    /// A variable of which nothing is known but its name and where its value is.
    pub fn new(name: String, value_location: DebugVarLocation) -> (var: DebugVarInfo)
        ensures
            var.spec_name() == name@,
            var.spec_value_location() == value_location,
            var.spec_type_id() is None,
            var.spec_arg_index() is None,
            var.spec_location() is None,
    {
        DebugVarInfo { name, type_id: None, arg_index: None, location: None, value_location }
    }

    pub fn name(&self) -> (name: &str)
        ensures
            name@ == self.spec_name(),
    {
        self.name.as_str()
    }

    pub fn type_id(&self) -> (type_id: Option<u32>)
        ensures
            type_id == self.spec_type_id(),
    {
        self.type_id
    }

    pub fn set_type_id(&mut self, type_id: u32)
        ensures
            final(self).spec_type_id() == Some(type_id),
            final(self).spec_name() == old(self).spec_name(),
            final(self).spec_arg_index() == old(self).spec_arg_index(),
            final(self).spec_location() == old(self).spec_location(),
            final(self).spec_value_location() == old(self).spec_value_location(),
    {
        self.type_id = Some(type_id);
    }

    pub fn arg_index(&self) -> (arg_index: Option<u32>)
        ensures
            arg_index == self.spec_arg_index(),
    {
        self.arg_index
    }

    pub fn set_arg_index(&mut self, arg_index: u32)
        ensures
            final(self).spec_arg_index() == Some(arg_index),
            final(self).spec_name() == old(self).spec_name(),
            final(self).spec_type_id() == old(self).spec_type_id(),
            final(self).spec_location() == old(self).spec_location(),
            final(self).spec_value_location() == old(self).spec_value_location(),
    {
        self.arg_index = Some(arg_index);
    }

    pub fn location(&self) -> (location: Option<&FileLineCol>)
        ensures
            match location {
                Some(l) => self.spec_location() == Some(*l),
                None => self.spec_location() is None,
            },
    {
        match &self.location {
            Some(l) => Some(l),
            None => None,
        }
    }

    pub fn set_location(&mut self, location: FileLineCol)
        ensures
            final(self).spec_location() == Some(location),
            final(self).spec_name() == old(self).spec_name(),
            final(self).spec_type_id() == old(self).spec_type_id(),
            final(self).spec_arg_index() == old(self).spec_arg_index(),
            final(self).spec_value_location() == old(self).spec_value_location(),
    {
        self.location = Some(location);
    }

    pub fn value_location(&self) -> (location: &DebugVarLocation)
        ensures
            *location == self.spec_value_location(),
    {
        &self.value_location
    }

    /// The variable as text: its name, its argument index if it is a parameter, where its value
    /// is, and where it was declared if that is known.
    pub open spec fn text(&self) -> Seq<char> {
        let head = "var."@ + self.spec_name();
        let arg = match self.spec_arg_index() {
            Some(i) => head + "[arg"@ + decimal(i as nat) + "]"@,
            None => head,
        };
        let value = arg + " = "@ + self.spec_value_location().text();
        match self.spec_location() {
            Some(l) => value + " "@ + l.text(),
            None => value,
        }
    }

    pub fn to_string(&self) -> (text: String)
        ensures
            text@ == self.text(),
    {
        let mut text = say("var.");
        text.append(self.name.as_str());
        if let Some(i) = self.arg_index {
            text.append("[arg");
            push_decimal(&mut text, i as u64);
            text.append("]");
        }
        text.append(" = ");
        let value = self.value_location.to_string();
        text.append(value.as_str());
        if let Some(l) = &self.location {
            let ghost before = text@;
            text.append(" ");
            text.append("[");
            text.append(l.uri.as_str());
            text.append("@");
            push_decimal(&mut text, l.line as u64);
            text.append(":");
            push_decimal(&mut text, l.column as u64);
            text.append("]");
            assert(text@ =~= before + " "@ + l.text());
        }
        text
    }
}

} // verus!
