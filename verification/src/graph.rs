//! The graph of blocks and connections that a diagram description stands for.
//!
//! Blocks and connections live in two lists. A connection names its two
//! blocks by their index, and a block names the connections attached to it
//! by theirs. A graph is built from a description as a whole or not at all:
//! where a connection names a block that does not exist, the builder returns
//! every such name and no graph.

use vstd::prelude::*;
use vstd::string::StringExecFns;
use crate::data::{spec_texts, BlockSpec, ConnectionSpec, DataSpec};

verus! {

/// A block of the graph with the connections attached to it.
#[derive(Debug)]
pub struct GraphBlock {
    pub spec: BlockSpec,
    /// The index of every connection that starts or ends here, in the order
    /// of the connections; a connection from the block to itself stands twice.
    pub connections: Vec<usize>,
}

/// A connection of the graph with the indices of its two blocks.
#[derive(Debug)]
pub struct GraphConnection {
    pub spec: ConnectionSpec,
    pub start_block: usize,
    pub end_block: usize,
}

/// The blocks and the connections of a diagram, each in the order of the
/// description.
#[derive(Debug)]
pub struct Graph {
    pub blocks: Vec<GraphBlock>,
    pub connections: Vec<GraphConnection>,
}

/// What a search for the two ends of a connection found: the index of the
/// block at the start, the index of another block at the end, and whether
/// one block is both.
#[derive(Debug, PartialEq, Eq, Copy, Clone, Structural)]
pub struct BlockSearchResult {
    pub start: Option<usize>,
    pub end: Option<usize>,
    pub are_same: bool,
}

/// The block records among the first `upto` records, in order.
pub open spec fn spec_block_specs(data: Seq<DataSpec>, upto: int) -> Seq<BlockSpec>
    decreases upto,
{
    if upto <= 0 {
        Seq::empty()
    } else {
        match data[upto - 1] {
            DataSpec::BlockDataSpec(block) => spec_block_specs(data, upto - 1).push(block),
            DataSpec::ConnectionDataSpec(_) => spec_block_specs(data, upto - 1),
        }
    }
}

/// The connection records among the first `upto` records, in order.
pub open spec fn spec_connection_specs(data: Seq<DataSpec>, upto: int) -> Seq<ConnectionSpec>
    decreases upto,
{
    if upto <= 0 {
        Seq::empty()
    } else {
        match data[upto - 1] {
            DataSpec::BlockDataSpec(_) => spec_connection_specs(data, upto - 1),
            DataSpec::ConnectionDataSpec(conn) => spec_connection_specs(data, upto - 1).push(conn),
        }
    }
}

/// The names of the blocks of a list.
pub open spec fn spec_names(blocks: Seq<GraphBlock>) -> Seq<Seq<char>> {
    Seq::new(blocks.len(), |i: int| blocks[i].spec.name())
}

/// The index of the first of the names from `low` up to `high` that equals `name`.
pub open spec fn spec_first_named(names: Seq<Seq<char>>, name: Seq<char>, low: int, high: int) -> Option<
    int,
>
    decreases high - low,
{
    if low >= high {
        None
    } else if names[low] == name {
        Some(low)
    } else {
        spec_first_named(names, name, low + 1, high)
    }
}

/// The index of the first block called `name`.
pub open spec fn spec_resolve(names: Seq<Seq<char>>, name: Seq<char>) -> Option<int> {
    spec_first_named(names, name, 0, names.len() as int)
}

/// The first of two search results that found something.
pub open spec fn spec_or(first: Option<int>, second: Option<int>) -> Option<int> {
    if first.is_some() {
        first
    } else {
        second
    }
}

/// The index that a search result holds, if it holds one.
pub open spec fn spec_index(found: Option<usize>) -> Option<int> {
    match found {
        Some(at) => Some(at as int),
        None => None,
    }
}

/// What a search of the blocks from `low` up to `high` finds for a
/// connection: the first block with the name of the start; the first block
/// with the name of the end, unless that is the name of the start too; and
/// whether a block has both names.
pub open spec fn spec_search_matches(
    found: BlockSearchResult,
    names: Seq<Seq<char>>,
    start_name: Seq<char>,
    end_name: Seq<char>,
    low: int,
    high: int,
) -> bool {
    &&& spec_index(found.start) == spec_first_named(names, start_name, low, high)
    &&& spec_index(found.end) == if start_name == end_name {
        None
    } else {
        spec_first_named(names, end_name, low, high)
    }
    &&& found.are_same == (start_name == end_name && spec_first_named(
        names,
        start_name,
        low,
        high,
    ).is_some())
}

/// The message for a connection end that names no block.
pub open spec fn spec_missing(name: Seq<char>) -> Seq<char> {
    "Block "@ + name + " does not exist"@
}

/// The messages for one connection: one for its start if no block bears
/// that name, and one for its end if no block bears that name and it is not
/// the name of the start.
pub open spec fn spec_connection_errors(names: Seq<Seq<char>>, conn: ConnectionSpec) -> Seq<Seq<char>> {
    (if spec_resolve(names, conn.start@).is_none() {
        seq![spec_missing(conn.start@)]
    } else {
        Seq::empty()
    }) + (if spec_resolve(names, conn.end@).is_none() && conn.end@ != conn.start@ {
        seq![spec_missing(conn.end@)]
    } else {
        Seq::empty()
    })
}

/// The messages for the first `upto` connections, in order.
pub open spec fn spec_resolution_errors(
    names: Seq<Seq<char>>,
    connections: Seq<ConnectionSpec>,
    upto: int,
) -> Seq<Seq<char>>
    decreases upto,
{
    if upto <= 0 {
        Seq::empty()
    } else {
        spec_resolution_errors(names, connections, upto - 1) + spec_connection_errors(
            names,
            connections[upto - 1],
        )
    }
}

/// The entries that one connection adds to the list of a block: its index
/// once for its start and once for its end, as far as they are the block.
pub open spec fn spec_attached_by(start: int, end: int, connection: int, block: int) -> Seq<usize> {
    (if start == block {
        seq![connection as usize]
    } else {
        Seq::empty()
    }) + (if end == block {
        seq![connection as usize]
    } else {
        Seq::empty()
    })
}

/// The list of a block after the first `upto` connections, each given by
/// the indices of its two blocks.
pub open spec fn spec_attached(ends: Seq<(int, int)>, block: int, upto: int) -> Seq<usize>
    decreases upto,
{
    if upto <= 0 {
        Seq::empty()
    } else {
        spec_attached(ends, block, upto - 1) + spec_attached_by(
            ends[upto - 1].0,
            ends[upto - 1].1,
            upto - 1,
            block,
        )
    }
}

/// The indices of the two blocks of each connection.
pub open spec fn spec_ends(connections: Seq<GraphConnection>) -> Seq<(int, int)> {
    Seq::new(
        connections.len(),
        |i: int| (connections[i].start_block as int, connections[i].end_block as int),
    )
}

impl GraphBlock {
    /// A block with no connection attached.
    pub fn new(spec: BlockSpec) -> (block: GraphBlock)
        ensures
            block.spec == spec,
            block.connections@.len() == 0,
    {
        GraphBlock { spec: spec, connections: Vec::new() }
    }

    /// The number of connection ends at this block.
    pub fn connection_count(&self) -> (count: usize)
        ensures
            count == self.connections@.len(),
    {
        self.connections.len()
    }
}

impl GraphConnection {
    /// Resolves the two ends of a connection against the blocks and, where
    /// both exist, attaches the connection, which is to get the index
    /// `index`, to them. Else the messages for the missing names come back
    /// and the blocks stay as they are.
    pub fn new(spec: ConnectionSpec, blocks: &mut Vec<GraphBlock>, index: usize) -> (made: Result<
        GraphConnection,
        Vec<String>,
    >)
        ensures
            spec_names(final(blocks)@) == spec_names(old(blocks)@),
            final(blocks)@.len() == old(blocks)@.len(),
            match made {
                Ok(conn) => {
                    &&& spec_connection_errors(spec_names(old(blocks)@), spec).len() == 0
                    &&& conn.spec == spec
                    &&& Some(conn.start_block as int) == spec_resolve(
                        spec_names(old(blocks)@),
                        spec.start@,
                    )
                    &&& Some(conn.end_block as int) == spec_resolve(
                        spec_names(old(blocks)@),
                        spec.end@,
                    )
                    &&& forall|i: int|
                        0 <= i < old(blocks)@.len() ==> (#[trigger] final(blocks)@[i]).spec == old(
                            blocks,
                        )@[i].spec && final(blocks)@[i].connections@ == old(
                            blocks,
                        )@[i].connections@ + spec_attached_by(
                            conn.start_block as int,
                            conn.end_block as int,
                            index as int,
                            i,
                        )
                },
                Err(errors) => {
                    &&& spec_texts(errors@) == spec_connection_errors(
                        spec_names(old(blocks)@),
                        spec,
                    )
                    &&& errors@.len() > 0
                    &&& final(blocks)@ == old(blocks)@
                },
            },
    {
        let ghost names = spec_names(blocks@);
        let block_find_res = find_start_and_end(blocks.as_slice(), &spec.start, &spec.end);
        let start_missing = block_find_res.start.is_none();
        let end_missing = block_find_res.end.is_none() && !block_find_res.are_same;
        if start_missing || end_missing {
            let mut errors: Vec<String> = Vec::new();
            if start_missing {
                errors.push(missing_block_message(&spec.start));
            }
            let ghost first = errors@;
            if end_missing && !(spec.end == spec.start) {
                errors.push(missing_block_message(&spec.end));
            }
            proof {
                assert(spec_texts(errors@) =~= spec_connection_errors(names, spec));
            }
            Err(errors)
        } else {
            let start: usize = block_find_res.start.unwrap();
            let end: usize = if block_find_res.are_same {
                start
            } else {
                block_find_res.end.unwrap()
            };
            proof {
                lemma_first_named_in_range(names, spec.start@, 0, names.len() as int);
                lemma_first_named_in_range(names, spec.end@, 0, names.len() as int);
            }
            let conn = GraphConnection { spec: spec, start_block: start, end_block: end };
            block_find_res.push_connections(blocks, index);
            proof {
                assert(spec_names(blocks@) =~= names);
                assert forall|i: int| 0 <= i < old(blocks)@.len() implies (
                #[trigger] blocks@[i]).connections@ =~= old(blocks)@[i].connections@
                    + spec_attached_by(start as int, end as int, index as int, i) by {}
            }
            Ok(conn)
        }
    }

    /// The block at the other end of the connection, seen from the block
    /// with the index `from`: the end for the start, else the start.
    pub fn get_far_end(&self, from: usize) -> (far: usize)
        ensures
            far == if self.start_block == from {
                self.end_block
            } else {
                self.start_block
            },
    {
        if self.start_block == from {
            self.end_block
        } else {
            self.start_block
        }
    }
}

impl Graph {
    /// The graph is sound: every connection leads from the first block with
    /// the name of its start to the first block with the name of its end,
    /// and every block lists the connections attached to it.
    pub open spec fn wf(&self) -> bool {
        &&& forall|c: int|
            0 <= c < self.connections@.len() ==> {
                &&& spec_resolve(
                    spec_names(self.blocks@),
                    (#[trigger] self.connections@[c]).spec.start@,
                ) == Some(self.connections@[c].start_block as int)
                &&& spec_resolve(spec_names(self.blocks@), self.connections@[c].spec.end@) == Some(
                    self.connections@[c].end_block as int,
                )
                &&& self.connections@[c].start_block < self.blocks@.len()
                &&& self.connections@[c].end_block < self.blocks@.len()
            }
        &&& forall|b: int|
            0 <= b < self.blocks@.len() ==> (#[trigger] self.blocks@[b]).connections@
                == spec_attached(spec_ends(self.connections@), b, self.connections@.len() as int)
    }

    /// The records of the blocks, in order.
    pub open spec fn block_specs(&self) -> Seq<BlockSpec> {
        Seq::new(self.blocks@.len(), |i: int| self.blocks@[i].spec)
    }

    /// The records of the connections, in order.
    pub open spec fn connection_specs(&self) -> Seq<ConnectionSpec> {
        Seq::new(self.connections@.len(), |i: int| self.connections@[i].spec)
    }

    /// Builds the graph of a description.
    ///
    /// The graph holds the blocks and the connections of the description in
    /// their order, and it is sound. Where a connection names a block that
    /// does not exist, no graph is built: the messages for all such names,
    /// in the order of the connections, come back instead.
    pub fn from_dataspec_vec(spec: Vec<DataSpec>) -> (built: Result<Graph, Vec<String>>)
        ensures
            spec_built(built, spec@),
    {
        graphize_data(spec)
    }
}

/// The names of the blocks of a description.
pub open spec fn spec_described_names(data: Seq<DataSpec>) -> Seq<Seq<char>> {
    Seq::new(
        spec_block_specs(data, data.len() as int).len(),
        |i: int| spec_block_specs(data, data.len() as int)[i].name(),
    )
}

/// What building the graph of a description returns.
pub open spec fn spec_built(built: Result<Graph, Vec<String>>, data: Seq<DataSpec>) -> bool {
    let connections = spec_connection_specs(data, data.len() as int);
    let errors = spec_resolution_errors(
        spec_described_names(data),
        connections,
        connections.len() as int,
    );
    match built {
        Ok(graph) => {
            &&& errors.len() == 0
            &&& graph.wf()
            &&& graph.block_specs() == spec_block_specs(data, data.len() as int)
            &&& graph.connection_specs() == connections
        },
        Err(messages) => {
            &&& errors.len() > 0
            &&& spec_texts(messages@) == errors
        },
    }
}

/// The message for a connection end that names no block.
pub fn missing_block_message(name: &String) -> (message: String)
    ensures
        message@ == spec_missing(name@),
{
    let mut message = String::from_str("Block ");
    message.append(name.as_str());
    message.append(" does not exist");
    message
}

/// Builds the graph of a description, or returns the messages for all the
/// names that its connections cannot resolve.
pub fn graphize_data(spec: Vec<DataSpec>) -> (built: Result<Graph, Vec<String>>)
    ensures
        spec_built(built, spec@),
{
    let ghost data = spec@;
    let (block_specs, connection_specs) = divide_into_block_and_connection(spec);
    let mut blocks: Vec<GraphBlock> = Vec::new();
    for block in it: block_specs
        invariant
            it.seq() == block_specs@,
            blocks@.len() == it.index(),
            forall|i: int|
                0 <= i < blocks@.len() ==> (#[trigger] blocks@[i]).spec == block_specs@[i]
                    && blocks@[i].connections@.len() == 0,
    {
        blocks.push(GraphBlock::new(block));
    }
    let ghost names = spec_names(blocks@);
    proof {
        assert(names =~= spec_described_names(data));
    }
    let mut connections: Vec<GraphConnection> = Vec::new();
    let mut errors: Vec<String> = Vec::new();
    let ghost mut ends: Seq<(int, int)> = Seq::empty();
    for connection in it: connection_specs
        invariant
            it.seq() == connection_specs@,
            spec_names(blocks@) == names,
            blocks@.len() == block_specs@.len(),
            forall|i: int| 0 <= i < blocks@.len() ==> (#[trigger] blocks@[i]).spec == block_specs@[i],
            spec_texts(errors@) == spec_resolution_errors(names, connection_specs@, it.index()),
            errors@.len() == 0 ==> {
                &&& connections@.len() == it.index()
                &&& ends == spec_ends(connections@)
                &&& forall|c: int|
                    0 <= c < connections@.len() ==> {
                        &&& (#[trigger] connections@[c]).spec == connection_specs@[c]
                        &&& spec_resolve(names, connections@[c].spec.start@) == Some(
                            connections@[c].start_block as int,
                        )
                        &&& spec_resolve(names, connections@[c].spec.end@) == Some(
                            connections@[c].end_block as int,
                        )
                        &&& connections@[c].start_block < blocks@.len()
                        &&& connections@[c].end_block < blocks@.len()
                    }
                &&& forall|b: int|
                    0 <= b < blocks@.len() ==> (#[trigger] blocks@[b]).connections@
                        == spec_attached(ends, b, connections@.len() as int)
            },
    {
        let ghost before = errors@;
        let ghost known = connections@;
        let ghost conn_spec = connection;
        let index: usize = connections.len();
        match GraphConnection::new(connection, &mut blocks, index) {
            Ok(conn) => {
                if errors.len() == 0 {
                    let ghost old_ends = ends;
                    let ghost next = (conn.start_block as int, conn.end_block as int);
                    proof {
                        lemma_first_named_in_range(names, conn_spec.start@, 0, names.len() as int);
                        lemma_first_named_in_range(names, conn_spec.end@, 0, names.len() as int);
                        ends = ends.push(next);
                    }
                    connections.push(conn);
                    proof {
                        assert(ends =~= spec_ends(connections@));
                        assert forall|b: int| 0 <= b < blocks@.len() implies (
                        #[trigger] blocks@[b]).connections@ == spec_attached(
                            ends,
                            b,
                            connections@.len() as int,
                        ) by {
                            lemma_attached_ignores_later(old_ends, next, b, old_ends.len() as int);
                        }
                        assert(spec_texts(errors@) =~= spec_texts(before)
                            + spec_connection_errors(names, conn_spec));
                    }
                } else {
                    proof {
                        assert(spec_texts(errors@) =~= spec_texts(before)
                            + spec_connection_errors(names, conn_spec));
                    }
                }
            },
            Err(mut messages) => {
                let ghost fresh = messages@;
                errors.append(&mut messages);
                proof {
                    assert(spec_texts(errors@) =~= spec_texts(before) + spec_texts(fresh));
                }
            },
        }
    }
    if errors.len() > 0 {
        return Err(errors);
    }
    let graph = Graph { blocks: blocks, connections: connections };
    proof {
        assert(graph.block_specs() =~= spec_block_specs(data, data.len() as int));
        assert(graph.connection_specs() =~= spec_connection_specs(data, data.len() as int));
    }
    Ok(graph)
}

/// Sorts the records of a description into blocks and connections, each
/// kind in its order.
pub fn divide_into_block_and_connection(specdata: Vec<DataSpec>) -> (parts: (
    Vec<BlockSpec>,
    Vec<ConnectionSpec>,
))
    ensures
        parts.0@ == spec_block_specs(specdata@, specdata@.len() as int),
        parts.1@ == spec_connection_specs(specdata@, specdata@.len() as int),
{
    let mut blocks: Vec<BlockSpec> = Vec::new();
    let mut connections: Vec<ConnectionSpec> = Vec::new();
    for record in it: specdata
        invariant
            it.seq() == specdata@,
            blocks@ == spec_block_specs(specdata@, it.index()),
            connections@ == spec_connection_specs(specdata@, it.index()),
    {
        match record {
            DataSpec::BlockDataSpec(block) => {
                blocks.push(block);
            },
            DataSpec::ConnectionDataSpec(conn) => {
                connections.push(conn);
            },
        }
    }
    (blocks, connections)
}

/// The first of the names from `low` up to `high` that equals `name` lies in
/// that range and equals it.
pub proof fn lemma_first_named_in_range(names: Seq<Seq<char>>, name: Seq<char>, low: int, high: int)
    requires
        0 <= low,
        high <= names.len(),
    ensures
        match spec_first_named(names, name, low, high) {
            Some(at) => low <= at < high && names[at] == name,
            None => forall|i: int| low <= i < high ==> names[i] != name,
        },
    decreases high - low,
{
    if low < high && names[low] != name {
        lemma_first_named_in_range(names, name, low + 1, high);
    }
}

/// A search of a range finds what the searches of its two halves find,
/// the lower half first.
pub proof fn lemma_first_named_splits(
    names: Seq<Seq<char>>,
    name: Seq<char>,
    low: int,
    mid: int,
    high: int,
)
    requires
        low <= mid <= high,
    ensures
        spec_first_named(names, name, low, high) == spec_or(
            spec_first_named(names, name, low, mid),
            spec_first_named(names, name, mid, high),
        ),
    decreases mid - low,
{
    if low < mid && names[low] != name {
        lemma_first_named_splits(names, name, low + 1, mid, high);
    }
}

impl BlockSearchResult {
    /// What one block contributes to a search: the start if it bears the
    /// name of the start, noting whether it bears the name of the end too;
    /// else the end if it bears the name of the end.
    pub fn single_block_result(
        blocks: &[GraphBlock],
        at: usize,
        start_name: &String,
        end_name: &String,
    ) -> (found: BlockSearchResult)
        requires
            at < blocks@.len(),
        ensures
            spec_search_matches(
                found,
                spec_names(blocks@),
                start_name@,
                end_name@,
                at as int,
                at as int + 1,
            ),
    {
        let block = &blocks[at];
        proof {
            reveal_with_fuel(spec_first_named, 2);
            assert(spec_names(blocks@)[at as int] == block.spec.name());
        }
        if block.spec.is_named(start_name) {
            let same = block.spec.is_named(end_name);
            BlockSearchResult { start: Some(at), end: None, are_same: same }
        } else if block.spec.is_named(end_name) {
            BlockSearchResult { start: None, end: Some(at), are_same: false }
        } else {
            BlockSearchResult { start: None, end: None, are_same: false }
        }
    }

    /// Joins the results of searching two ranges of blocks, the lower first.
    pub fn merge(res_1: BlockSearchResult, res_2: BlockSearchResult) -> (joined: BlockSearchResult)
        ensures
            joined.start == if res_1.start.is_some() {
                res_1.start
            } else {
                res_2.start
            },
            joined.end == if res_1.end.is_some() {
                res_1.end
            } else {
                res_2.end
            },
            joined.are_same == (res_1.are_same || res_2.are_same),
    {
        BlockSearchResult {
            start: if res_1.start.is_some() {
                res_1.start
            } else {
                res_2.start
            },
            end: if res_1.end.is_some() {
                res_1.end
            } else {
                res_2.end
            },
            are_same: res_1.are_same || res_2.are_same,
        }
    }

    /// Attaches the connection with the index `connection` to the blocks
    /// found: once to the start and once to the end, which for a connection
    /// of a block to itself is the same block twice.
    pub fn push_connections(&self, blocks: &mut Vec<GraphBlock>, connection: usize)
        requires
            self.start.is_some(),
            self.start.unwrap() < old(blocks)@.len(),
            !self.are_same ==> self.end.is_some() && self.end.unwrap() < old(blocks)@.len(),
        ensures
            final(blocks)@.len() == old(blocks)@.len(),
            forall|i: int|
                0 <= i < old(blocks)@.len() ==> (#[trigger] final(blocks)@[i]).spec == old(
                    blocks,
                )@[i].spec && final(blocks)@[i].connections@ == old(blocks)@[i].connections@
                    + spec_attached_by(
                    self.start.unwrap() as int,
                    if self.are_same {
                        self.start.unwrap() as int
                    } else {
                        self.end.unwrap() as int
                    },
                    connection as int,
                    i,
                ),
    {
        let start: usize = self.start.unwrap();
        let end: usize = if self.are_same {
            start
        } else {
            self.end.unwrap()
        };
        blocks[start].connections.push(connection);
        blocks[end].connections.push(connection);
        proof {
            assert forall|i: int| 0 <= i < old(blocks)@.len() implies (
            #[trigger] blocks@[i]).connections@ =~= old(blocks)@[i].connections@
                + spec_attached_by(start as int, end as int, connection as int, i) by {}
        }
    }
}

/// Searches the blocks for the two ends of a connection.
///
/// The search halves the blocks, searches each half and joins what it finds,
/// so that a block found in the lower half takes precedence.
pub fn find_start_and_end(blocks: &[GraphBlock], start_name: &String, end_name: &String) -> (found:
    BlockSearchResult)
    ensures
        spec_search_matches(
            found,
            spec_names(blocks@),
            start_name@,
            end_name@,
            0,
            blocks@.len() as int,
        ),
{
    search_range(blocks, 0, blocks.len(), start_name, end_name)
}

/// Searches the blocks from `low` up to `high` for the two ends of a connection.
pub fn search_range(
    blocks: &[GraphBlock],
    low: usize,
    high: usize,
    start_name: &String,
    end_name: &String,
) -> (found: BlockSearchResult)
    requires
        low <= high <= blocks@.len(),
    ensures
        spec_search_matches(
            found,
            spec_names(blocks@),
            start_name@,
            end_name@,
            low as int,
            high as int,
        ),
    decreases high - low,
{
    if high - low == 0 {
        BlockSearchResult { start: None, end: None, are_same: false }
    } else if high - low == 1 {
        BlockSearchResult::single_block_result(blocks, low, start_name, end_name)
    } else {
        let mid: usize = low + (high - low) / 2;
        proof {
            lemma_first_named_splits(
                spec_names(blocks@),
                start_name@,
                low as int,
                mid as int,
                high as int,
            );
            lemma_first_named_splits(
                spec_names(blocks@),
                end_name@,
                low as int,
                mid as int,
                high as int,
            );
        }
        BlockSearchResult::merge(
            search_range(blocks, low, mid, start_name, end_name),
            search_range(blocks, mid, high, start_name, end_name),
        )
    }
}

/// The messages for a list of connections hold a message for every name at
/// a start or at an end of one of them that no block bears.
pub proof fn lemma_every_missing_name_is_reported(
    names: Seq<Seq<char>>,
    connections: Seq<ConnectionSpec>,
    at: int,
    upto: int,
)
    requires
        0 <= at < upto <= connections.len(),
    ensures
        spec_resolve(names, connections[at].start@).is_none() ==> spec_resolution_errors(
            names,
            connections,
            upto,
        ).contains(spec_missing(connections[at].start@)),
        spec_resolve(names, connections[at].end@).is_none() ==> spec_resolution_errors(
            names,
            connections,
            upto,
        ).contains(spec_missing(connections[at].end@)),
    decreases upto,
{
    let before = spec_resolution_errors(names, connections, upto - 1);
    let here = spec_connection_errors(names, connections[upto - 1]);
    let all = spec_resolution_errors(names, connections, upto);
    if at < upto - 1 {
        lemma_every_missing_name_is_reported(names, connections, at, upto - 1);
        if spec_resolve(names, connections[at].start@).is_none() {
            let i = choose|i: int|
                0 <= i < before.len() && before[i] == spec_missing(connections[at].start@);
            assert(all[i] == before[i]);
        }
        if spec_resolve(names, connections[at].end@).is_none() {
            let i = choose|i: int|
                0 <= i < before.len() && before[i] == spec_missing(connections[at].end@);
            assert(all[i] == before[i]);
        }
    } else {
        let conn = connections[at];
        if spec_resolve(names, conn.start@).is_none() {
            assert(here[0] == spec_missing(conn.start@));
            assert(all[before.len() as int] == here[0]);
        }
        if spec_resolve(names, conn.end@).is_none() {
            if conn.end@ == conn.start@ {
                assert(all[before.len() as int] == here[0]);
            } else {
                assert(here[here.len() - 1] == spec_missing(conn.end@));
                assert(all[before.len() + here.len() - 1] == here[here.len() - 1]);
            }
        }
    }
}

/// A connection of a block to itself adds exactly two entries to the list
/// of that block, and none to the list of any other.
pub proof fn lemma_self_connection_counts_twice(ends: Seq<(int, int)>, block: int, other: int)
    requires
        other != block,
    ensures
        spec_attached(ends.push((block, block)), block, ends.len() as int + 1).len() == spec_attached(
            ends,
            block,
            ends.len() as int,
        ).len() + 2,
        spec_attached(ends.push((block, block)), other, ends.len() as int + 1) == spec_attached(
            ends,
            other,
            ends.len() as int,
        ),
{
    lemma_attached_ignores_later(ends, (block, block), block, ends.len() as int);
    lemma_attached_ignores_later(ends, (block, block), other, ends.len() as int);
    assert(spec_attached(ends.push((block, block)), other, ends.len() as int + 1) =~= spec_attached(
        ends,
        other,
        ends.len() as int,
    ));
}

/// The list of a block after some connections does not depend on the
/// connections that follow them.
pub proof fn lemma_attached_ignores_later(ends: Seq<(int, int)>, next: (int, int), block: int, upto: int)
    requires
        upto <= ends.len(),
    ensures
        spec_attached(ends.push(next), block, upto) == spec_attached(ends, block, upto),
    decreases upto,
{
    if upto > 0 {
        lemma_attached_ignores_later(ends, next, block, upto - 1);
        assert(ends.push(next)[upto - 1] == ends[upto - 1]);
    }
}

} // verus!
