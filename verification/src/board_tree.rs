//! The exploration record: which boards a search looked at, and from where.

use crate::board::Board;
use std::collections::hash_map::DefaultHasher;
use std::collections::HashMap;
use std::hash::Hasher;
use vstd::prelude::*;
use vstd::std_specs::hash::DefaultHasherAdditionalSpecFns;

verus! {

/// Identifier of a recorded board, derived from its cells.
pub type BoardID = u64;

/// The identifier under which a board with the given cells is recorded: the
/// standard library's default hash of the cell array.
pub open spec fn board_id(cells: Seq<u8>) -> BoardID {
    DefaultHasher::spec_finish(seq![cells])
}

/// What a record holds, mathematically.
#[verifier::ext_equal]
pub struct TreeView {
    /// For each identifier that was named as a parent, the identifiers
    /// recorded under it, in the order in which they came.
    pub children: Map<BoardID, Seq<BoardID>>,
    /// For each identifier recorded under a parent, that parent.
    pub parent: Map<BoardID, BoardID>,
    /// For each recorded identifier, the cells of the board last recorded
    /// under it.
    pub entries: Map<BoardID, Seq<u8>>,
}

impl TreeView {
    /// The record that holds nothing.
    pub open spec fn empty() -> TreeView {
        TreeView { children: Map::empty(), parent: Map::empty(), entries: Map::empty() }
    }

    /// The identifiers recorded under `id`.
    pub open spec fn children_of(self, id: BoardID) -> Seq<BoardID> {
        if self.children.contains_key(id) {
            self.children[id]
        } else {
            Seq::empty()
        }
    }

    /// The record after the board with the given cells was entered under
    /// `parent`.
    pub open spec fn insert(self, cells: Seq<u8>, parent: Option<BoardID>) -> TreeView {
        let id = board_id(cells);
        match parent {
            None => TreeView { entries: self.entries.insert(id, cells), ..self },
            Some(above) => TreeView {
                children: self.children.insert(above, self.children_of(above).push(id)),
                parent: self.parent.insert(id, above),
                entries: self.entries.insert(id, cells),
            },
        }
    }
}

/// Entering a board never removes anything from a record: the identifiers
/// it knows stay known, the new board is held under its identifier, and
/// under every identifier the children that were there stay first.
pub proof fn lemma_insert_keeps(tree: TreeView, cells: Seq<u8>, parent: Option<BoardID>)
    ensures
        tree.insert(cells, parent).entries.contains_key(board_id(cells)),
        tree.insert(cells, parent).entries[board_id(cells)] == cells,
        forall|id: BoardID| #[trigger]
            tree.entries.contains_key(id) ==> tree.insert(cells, parent).entries.contains_key(id),
        forall|id: BoardID| #[trigger]
            tree.parent.contains_key(id) ==> tree.insert(cells, parent).parent.contains_key(id),
        forall|id: BoardID|
            tree.children_of(id).is_prefix_of(#[trigger] tree.insert(cells, parent).children_of(id)),
        parent matches Some(above) ==> tree.insert(cells, parent).parent[board_id(cells)] == above
            && tree.insert(cells, parent).children_of(above).last() == board_id(cells),
{
}

/// A log of boards, keyed by their content: for each board its cells, the
/// board it was derived from, and the boards derived from it.
pub struct BoardTree {
    children: HashMap<BoardID, Vec<BoardID>>,
    parent: HashMap<BoardID, BoardID>,
    entries: HashMap<BoardID, Board>,
}

impl View for BoardTree {
    type V = TreeView;

    closed spec fn view(&self) -> TreeView {
        TreeView {
            children: self.children@.map_values(|ids: Vec<BoardID>| ids@),
            parent: self.parent@,
            entries: self.entries@.map_values(|board: Board| board@),
        }
    }
}

impl Default for BoardTree {
    /// The record that holds nothing.
    fn default() -> (tree: BoardTree)
        ensures
            tree@ == TreeView::empty(),
    {
        let tree = BoardTree {
            children: HashMap::new(),
            parent: HashMap::new(),
            entries: HashMap::new(),
        };
        assert(tree@ =~= TreeView::empty());
        tree
    }
}

impl BoardTree {
    /// Enters `board` under `parent` and returns the identifier of `board`.
    /// A board with the same cells that was entered before is overwritten.
    pub fn insert(&mut self, board: Board, parent: Option<BoardID>) -> (id: BoardID)
        ensures
            id == board_id(board@),
            final(self)@ == old(self)@.insert(board@, parent),
    {
        let mut hasher = DefaultHasher::new();
        hasher.write(board.as_slice());
        let board_id: BoardID = hasher.finish();

        self.entries.insert(board_id, board);

        if let Some(above) = parent {
            self.parent.insert(board_id, above);
            let mut below: Vec<BoardID> = match self.children.remove(&above) {
                Some(ids) => ids,
                None => Vec::new(),
            };
            below.push(board_id);
            self.children.insert(above, below);
        }
        assert(self@ =~= old(self)@.insert(board@, parent));
        board_id
    }

    /// The board last entered under `id`, if there is one.
    pub fn get_board(&self, id: BoardID) -> (board: Option<&Board>)
        ensures
            board is Some <==> self@.entries.contains_key(id),
            board is Some ==> board->0@ == self@.entries[id],
    {
        self.entries.get(&id)
    }

    /// The identifier under which `id` was entered, if it was entered under
    /// one.
    pub fn parent(&self, id: BoardID) -> (parent: Option<BoardID>)
        ensures
            parent is Some <==> self@.parent.contains_key(id),
            parent is Some ==> parent->0 == self@.parent[id],
    {
        match self.parent.get(&id) {
            Some(above) => Some(*above),
            None => None,
        }
    }

    /// The identifiers entered under `id`, if there are any.
    pub fn children(&self, id: BoardID) -> (children: Option<&[BoardID]>)
        ensures
            children is Some <==> self@.children.contains_key(id),
            children is Some ==> children->0@ == self@.children[id],
    {
        match self.children.get(&id) {
            Some(ids) => Some(ids.as_slice()),
            None => None,
        }
    }
}

} // verus!
