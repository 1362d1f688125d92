use vstd::prelude::*;

use crate::table::Table;

verus! {

// The parser, the pipeline and the deparser are WebAssembly programs that
// the host runs; the library keeps each program with what it is run on.

/// The packet parser: its program, called with the packet, the packet's
/// length and the parse result to fill.
pub struct Parser {
    program: Vec<u8>,
    arg_count: usize,
}

/// The packet deparser: its program, called with the packet and its parse
/// result.
pub struct Deparser {
    program: Vec<u8>,
    arg_count: usize,
}

/// The match-action pipeline: its program and the tables it searches.
pub struct Pipeline {
    program: Vec<u8>,
    arg_count: usize,
    table_list: Vec<Table>,
}

fn copy_program(wasm: &[u8]) -> (r: Vec<u8>)
    ensures
        r@ == wasm@,
{
    let mut r: Vec<u8> = Vec::new();
    let mut i: usize = 0;
    while i < wasm.len()
        invariant
            i <= wasm@.len(),
            r@ == wasm@.take(i as int),
        decreases wasm@.len() - i,
    {
        r.push(wasm[i]);
        i = i + 1;
        assert(r@ =~= wasm@.take(i as int));
    }
    assert(r@ =~= wasm@);
    r
}

impl Parser {
    pub closed spec fn program(&self) -> Seq<u8> {
        self.program@
    }

    pub closed spec fn arg_count(&self) -> usize {
        self.arg_count
    }

    /// A parser running `wasm`, with its three argument slots.
    pub fn new(wasm: &[u8]) -> (r: Parser)
        ensures
            r.program() == wasm@,
            r.arg_count() == 3,
    {
        Parser { program: copy_program(wasm), arg_count: 3 }
    }

    /// The program.
    pub fn program_bytes(&self) -> (r: &[u8])
        ensures
            r@ == self.program(),
    {
        self.program.as_slice()
    }
}

impl Deparser {
    pub closed spec fn program(&self) -> Seq<u8> {
        self.program@
    }

    pub closed spec fn arg_count(&self) -> usize {
        self.arg_count
    }

    /// A deparser running `wasm`, with its one argument slot.
    pub fn new(wasm: &[u8]) -> (r: Deparser)
        ensures
            r.program() == wasm@,
            r.arg_count() == 1,
    {
        Deparser { program: copy_program(wasm), arg_count: 1 }
    }

    /// The program.
    pub fn program_bytes(&self) -> (r: &[u8])
        ensures
            r@ == self.program(),
    {
        self.program.as_slice()
    }
}

impl Pipeline {
    pub closed spec fn program(&self) -> Seq<u8> {
        self.program@
    }

    pub closed spec fn arg_count(&self) -> usize {
        self.arg_count
    }

    pub closed spec fn tables(&self) -> Seq<Table> {
        self.table_list@
    }

    /// A pipeline running `wasm` over `table_list`, with its one argument
    /// slot.
    pub fn new(wasm: &[u8], table_list: Vec<Table>) -> (r: Pipeline)
        ensures
            r.program() == wasm@,
            r.arg_count() == 1,
            r.tables() == table_list@,
    {
        Pipeline { program: copy_program(wasm), arg_count: 1, table_list }
    }

    /// The program.
    pub fn program_bytes(&self) -> (r: &[u8])
        ensures
            r@ == self.program(),
    {
        self.program.as_slice()
    }

    /// The tables the pipeline searches.
    pub fn table_list(&self) -> (r: &Vec<Table>)
        ensures
            r@ == self.tables(),
    {
        &self.table_list
    }
}

} // verus!
