//! Which answer of the IDE's API a request gets, by its method and path:
//! the dispatch of the local server. Whatever changes the state of the
//! project or of the model is reached only by POST.

use vstd::prelude::*;
use crate::player::{field_end, lemma_field_end};
use crate::text::{chars_at, chars_eq, chars_of, has_at, str_same, sub_chars};

verus! {

/// The answers of the API (`NotFound` for any other request).
#[derive(Debug, Clone, Copy, PartialEq, Eq, Structural)]
pub enum Route {
    Project,
    Class,
    Icon,
    Scheme,
    ClassText,
    ClassVars,
    ChildMove,
    ChildMoveAll,
    ChildAdd,
    ChildRemove,
    ChildReplace,
    ChildMerge,
    ChildRename,
    LinkSet,
    Pad,
    LinkStyle,
    ClassSheet,
    ClassProps,
    ChildReorder,
    ProjectProperties,
    SetProjectProperty,
    Matrices,
    Matrix,
    SetMatrix,
    Icons,
    IconSheet,
    ClassIcon,
    Check,
    LinkRemove,
    ClassNew,
    TraceAdd,
    TraceRemove,
    Traces,
    ClassRename,
    ClassDelete,
    BreakpointAdd,
    BreakpointRemove,
    BreakpointToggle,
    Breakpoints,
    Eval,
    Profile,
    Help,
    HelpTopic,
    Open,
    New,
    Info,
    Browse,
    Object,
    ObjectSet,
    Graph,
    PictureRead,
    PictureEdit,
    PictureWrongMethod,
    State,
    Search,
    Undo,
    Redo,
    Save,
    Export,
    Instances,
    Watch,
    SetValue,
    NotFound,
}

/// The answers that change the project, the model or the session.
pub open spec fn changes_state(r: Route) -> bool {
    r == Route::ClassText
        || r == Route::ClassVars
        || r == Route::ChildMove
        || r == Route::ChildMoveAll
        || r == Route::ChildAdd
        || r == Route::ChildRemove
        || r == Route::ChildReplace
        || r == Route::ChildMerge
        || r == Route::ChildRename
        || r == Route::LinkSet
        || r == Route::Pad
        || r == Route::LinkStyle
        || r == Route::ClassSheet
        || r == Route::ClassProps
        || r == Route::ChildReorder
        || r == Route::SetProjectProperty
        || r == Route::SetMatrix
        || r == Route::ClassIcon
        || r == Route::LinkRemove
        || r == Route::ClassNew
        || r == Route::TraceAdd
        || r == Route::TraceRemove
        || r == Route::ClassRename
        || r == Route::ClassDelete
        || r == Route::BreakpointAdd
        || r == Route::BreakpointRemove
        || r == Route::BreakpointToggle
        || r == Route::Eval
        || r == Route::Open
        || r == Route::New
        || r == Route::ObjectSet
        || r == Route::PictureEdit
        || r == Route::State
        || r == Route::Undo
        || r == Route::Redo
        || r == Route::Save
        || r == Route::Export
        || r == Route::SetValue
}

/// The path after `/api/`; empty for any other path.
pub open spec fn api_rest(path: Seq<char>) -> Seq<char> {
    if has_at(path, 0, "/api/"@) {
        path.subrange("/api/"@.len() as int, path.len() as int)
    } else {
        Seq::empty()
    }
}

/// `str::split('/')` from `i` on: the segments between slashes.
pub open spec fn segments_from(s: Seq<char>, i: int) -> Seq<Seq<char>>
    decreases s.len() - i,
{
    let e = field_end(s, i, '/');
    if i < 0 || i > s.len() {
        Seq::empty()
    } else if e < s.len() && e >= i {
        seq![s.subrange(i, e)] + segments_from(s, e + 1)
    } else {
        seq![s.subrange(i, s.len() as int)]
    }
}

/// The answer for a method and the segments of the path after `/api/`,
/// the first that fits, in the order the server tries them.
pub open spec fn route_for(m: Seq<char>, ps: Seq<Seq<char>>) -> Route {
    if m == "GET"@ && ps.len() == 1 && ps[0] == "project"@ {
        Route::Project
    } else if m == "GET"@ && ps.len() == 2 && ps[0] == "class"@ {
        Route::Class
    } else if m == "GET"@ && ps.len() == 2 && ps[0] == "icon"@ {
        Route::Icon
    } else if m == "GET"@ && ps.len() == 2 && ps[0] == "scheme"@ {
        Route::Scheme
    } else if m == "POST"@ && ps.len() == 3 && ps[0] == "class"@ && ps[2] == "text"@ {
        Route::ClassText
    } else if m == "POST"@ && ps.len() == 3 && ps[0] == "class"@ && ps[2] == "vars"@ {
        Route::ClassVars
    } else if m == "POST"@ && ps.len() == 2 && ps[0] == "child"@ && ps[1] == "move"@ {
        Route::ChildMove
    } else if m == "POST"@ && ps.len() == 2 && ps[0] == "child"@ && ps[1] == "moveall"@ {
        Route::ChildMoveAll
    } else if m == "POST"@ && ps.len() == 2 && ps[0] == "child"@ && ps[1] == "add"@ {
        Route::ChildAdd
    } else if m == "POST"@ && ps.len() == 2 && ps[0] == "child"@ && ps[1] == "remove"@ {
        Route::ChildRemove
    } else if m == "POST"@ && ps.len() == 2 && ps[0] == "child"@ && ps[1] == "replace"@ {
        Route::ChildReplace
    } else if m == "POST"@ && ps.len() == 2 && ps[0] == "child"@ && ps[1] == "merge"@ {
        Route::ChildMerge
    } else if m == "POST"@ && ps.len() == 2 && ps[0] == "child"@ && ps[1] == "rename"@ {
        Route::ChildRename
    } else if m == "POST"@ && ps.len() == 2 && ps[0] == "link"@ && ps[1] == "set"@ {
        Route::LinkSet
    } else if m == "POST"@ && ps.len() == 2 && ps[0] == "pad"@ {
        Route::Pad
    } else if m == "POST"@ && ps.len() == 2 && ps[0] == "link"@ && ps[1] == "style"@ {
        Route::LinkStyle
    } else if m == "POST"@ && ps.len() == 3 && ps[0] == "class"@ && ps[2] == "sheet"@ {
        Route::ClassSheet
    } else if m == "POST"@ && ps.len() == 3 && ps[0] == "class"@ && ps[2] == "props"@ {
        Route::ClassProps
    } else if m == "POST"@ && ps.len() == 2 && ps[0] == "child"@ && ps[1] == "reorder"@ {
        Route::ChildReorder
    } else if m == "GET"@ && ps.len() == 2 && ps[0] == "project"@ && ps[1] == "properties"@ {
        Route::ProjectProperties
    } else if m == "POST"@ && ps.len() == 2 && ps[0] == "project"@ && ps[1] == "properties"@ {
        Route::SetProjectProperty
    } else if m == "GET"@ && ps.len() == 1 && ps[0] == "matrices"@ {
        Route::Matrices
    } else if m == "GET"@ && ps.len() == 2 && ps[0] == "matrix"@ {
        Route::Matrix
    } else if m == "POST"@ && ps.len() == 2 && ps[0] == "matrix"@ {
        Route::SetMatrix
    } else if m == "GET"@ && ps.len() == 1 && ps[0] == "icons"@ {
        Route::Icons
    } else if m == "GET"@ && ps.len() == 1 && ps[0] == "iconsheet"@ {
        Route::IconSheet
    } else if m == "POST"@ && ps.len() == 3 && ps[0] == "class"@ && ps[2] == "icon"@ {
        Route::ClassIcon
    } else if m == "GET"@ && ps.len() == 1 && ps[0] == "check"@ {
        Route::Check
    } else if m == "POST"@ && ps.len() == 2 && ps[0] == "link"@ && ps[1] == "remove"@ {
        Route::LinkRemove
    } else if m == "POST"@ && ps.len() == 2 && ps[0] == "class"@ && ps[1] == "new"@ {
        Route::ClassNew
    } else if m == "POST"@ && ps.len() == 2 && ps[0] == "trace"@ && ps[1] == "add"@ {
        Route::TraceAdd
    } else if m == "POST"@ && ps.len() == 2 && ps[0] == "trace"@ && ps[1] == "remove"@ {
        Route::TraceRemove
    } else if m == "GET"@ && ps.len() == 1 && ps[0] == "traces"@ {
        Route::Traces
    } else if m == "POST"@ && ps.len() == 3 && ps[0] == "class"@ && ps[2] == "rename"@ {
        Route::ClassRename
    } else if m == "POST"@ && ps.len() == 3 && ps[0] == "class"@ && ps[2] == "delete"@ {
        Route::ClassDelete
    } else if m == "POST"@ && ps.len() == 2 && ps[0] == "breakpoint"@ && ps[1] == "add"@ {
        Route::BreakpointAdd
    } else if m == "POST"@ && ps.len() == 2 && ps[0] == "breakpoint"@ && ps[1] == "remove"@ {
        Route::BreakpointRemove
    } else if m == "POST"@ && ps.len() == 2 && ps[0] == "breakpoint"@ && ps[1] == "toggle"@ {
        Route::BreakpointToggle
    } else if m == "GET"@ && ps.len() == 1 && ps[0] == "breakpoints"@ {
        Route::Breakpoints
    } else if m == "POST"@ && ps.len() == 2 && ps[0] == "eval"@ {
        Route::Eval
    } else if m == "GET"@ && ps.len() == 1 && ps[0] == "profile"@ {
        Route::Profile
    } else if m == "GET"@ && ps.len() == 1 && ps[0] == "help"@ {
        Route::Help
    } else if m == "GET"@ && ps.len() == 2 && ps[0] == "help"@ {
        Route::HelpTopic
    } else if m == "POST"@ && ps.len() == 1 && ps[0] == "open"@ {
        Route::Open
    } else if m == "POST"@ && ps.len() == 1 && ps[0] == "new"@ {
        Route::New
    } else if m == "GET"@ && ps.len() == 1 && ps[0] == "info"@ {
        Route::Info
    } else if m == "GET"@ && ps.len() == 1 && ps[0] == "browse"@ {
        Route::Browse
    } else if m == "GET"@ && ps.len() == 1 && ps[0] == "object"@ {
        Route::Object
    } else if m == "POST"@ && ps.len() == 2 && ps[0] == "object"@ && ps[1] == "set"@ {
        Route::ObjectSet
    } else if m == "GET"@ && ps.len() == 2 && ps[0] == "graph"@ {
        Route::Graph
    } else if m == "GET"@ && ps.len() == 2 && ps[0] == "picture"@ {
        Route::PictureRead
    } else if m == "POST"@ && ps.len() == 2 && ps[0] == "picture"@ {
        Route::PictureEdit
    } else if ps.len() == 2 && ps[0] == "picture"@ {
        Route::PictureWrongMethod
    } else if m == "POST"@ && ps.len() == 2 && ps[0] == "state"@ {
        Route::State
    } else if m == "GET"@ && ps.len() == 1 && ps[0] == "search"@ {
        Route::Search
    } else if m == "POST"@ && ps.len() == 1 && ps[0] == "undo"@ {
        Route::Undo
    } else if m == "POST"@ && ps.len() == 1 && ps[0] == "redo"@ {
        Route::Redo
    } else if m == "POST"@ && ps.len() == 1 && ps[0] == "save"@ {
        Route::Save
    } else if m == "POST"@ && ps.len() == 1 && ps[0] == "export"@ {
        Route::Export
    } else if m == "GET"@ && ps.len() == 1 && ps[0] == "instances"@ {
        Route::Instances
    } else if m == "GET"@ && ps.len() == 2 && ps[0] == "watch"@ {
        Route::Watch
    } else if m == "POST"@ && ps.len() == 2 && ps[0] == "set"@ {
        Route::SetValue
    } else {
        Route::NotFound
    }
}

/// The words of the paths of the API, spelled out.
proof fn lemma_route_words()
    ensures
        "GET"@.len() == 3,
        "POST"@.len() == 4,
        "add"@.len() == 3,
        "breakpoint"@.len() == 10,
        "breakpoints"@.len() == 11,
        "browse"@.len() == 6,
        "check"@.len() == 5,
        "child"@.len() == 5,
        "class"@.len() == 5,
        "delete"@.len() == 6,
        "eval"@.len() == 4,
        "export"@.len() == 6,
        "graph"@.len() == 5,
        "help"@.len() == 4,
        "icon"@.len() == 4,
        "icons"@.len() == 5,
        "iconsheet"@.len() == 9,
        "info"@.len() == 4,
        "instances"@.len() == 9,
        "link"@.len() == 4,
        "matrices"@.len() == 8,
        "matrix"@.len() == 6,
        "merge"@.len() == 5,
        "move"@.len() == 4,
        "moveall"@.len() == 7,
        "new"@.len() == 3,
        "object"@.len() == 6,
        "open"@.len() == 4,
        "pad"@.len() == 3,
        "picture"@.len() == 7,
        "profile"@.len() == 7,
        "project"@.len() == 7,
        "properties"@.len() == 10,
        "props"@.len() == 5,
        "redo"@.len() == 4,
        "remove"@.len() == 6,
        "rename"@.len() == 6,
        "reorder"@.len() == 7,
        "replace"@.len() == 7,
        "save"@.len() == 4,
        "scheme"@.len() == 6,
        "search"@.len() == 6,
        "set"@.len() == 3,
        "sheet"@.len() == 5,
        "state"@.len() == 5,
        "style"@.len() == 5,
        "text"@.len() == 4,
        "toggle"@.len() == 6,
        "trace"@.len() == 5,
        "traces"@.len() == 6,
        "undo"@.len() == 4,
        "vars"@.len() == 4,
        "watch"@.len() == 5,
        "GET"@[0] == 'G' && "GET"@[1] == 'E' && "GET"@[2] == 'T',
        "POST"@[0] == 'P' && "POST"@[1] == 'O' && "POST"@[2] == 'S' && "POST"@[3] == 'T',
        "add"@[0] == 'a' && "add"@[1] == 'd' && "add"@[2] == 'd',
        "breakpoint"@[0] == 'b' && "breakpoint"@[1] == 'r' && "breakpoint"@[2] == 'e' && "breakpoint"@[3] == 'a' && "breakpoint"@[4] == 'k' && "breakpoint"@[5] == 'p' && "breakpoint"@[6] == 'o' && "breakpoint"@[7] == 'i' && "breakpoint"@[8] == 'n' && "breakpoint"@[9] == 't',
        "breakpoints"@[0] == 'b' && "breakpoints"@[1] == 'r' && "breakpoints"@[2] == 'e' && "breakpoints"@[3] == 'a' && "breakpoints"@[4] == 'k' && "breakpoints"@[5] == 'p' && "breakpoints"@[6] == 'o' && "breakpoints"@[7] == 'i' && "breakpoints"@[8] == 'n' && "breakpoints"@[9] == 't' && "breakpoints"@[10] == 's',
        "browse"@[0] == 'b' && "browse"@[1] == 'r' && "browse"@[2] == 'o' && "browse"@[3] == 'w' && "browse"@[4] == 's' && "browse"@[5] == 'e',
        "check"@[0] == 'c' && "check"@[1] == 'h' && "check"@[2] == 'e' && "check"@[3] == 'c' && "check"@[4] == 'k',
        "child"@[0] == 'c' && "child"@[1] == 'h' && "child"@[2] == 'i' && "child"@[3] == 'l' && "child"@[4] == 'd',
        "class"@[0] == 'c' && "class"@[1] == 'l' && "class"@[2] == 'a' && "class"@[3] == 's' && "class"@[4] == 's',
        "delete"@[0] == 'd' && "delete"@[1] == 'e' && "delete"@[2] == 'l' && "delete"@[3] == 'e' && "delete"@[4] == 't' && "delete"@[5] == 'e',
        "eval"@[0] == 'e' && "eval"@[1] == 'v' && "eval"@[2] == 'a' && "eval"@[3] == 'l',
        "export"@[0] == 'e' && "export"@[1] == 'x' && "export"@[2] == 'p' && "export"@[3] == 'o' && "export"@[4] == 'r' && "export"@[5] == 't',
        "graph"@[0] == 'g' && "graph"@[1] == 'r' && "graph"@[2] == 'a' && "graph"@[3] == 'p' && "graph"@[4] == 'h',
        "help"@[0] == 'h' && "help"@[1] == 'e' && "help"@[2] == 'l' && "help"@[3] == 'p',
        "icon"@[0] == 'i' && "icon"@[1] == 'c' && "icon"@[2] == 'o' && "icon"@[3] == 'n',
        "icons"@[0] == 'i' && "icons"@[1] == 'c' && "icons"@[2] == 'o' && "icons"@[3] == 'n' && "icons"@[4] == 's',
        "iconsheet"@[0] == 'i' && "iconsheet"@[1] == 'c' && "iconsheet"@[2] == 'o' && "iconsheet"@[3] == 'n' && "iconsheet"@[4] == 's' && "iconsheet"@[5] == 'h' && "iconsheet"@[6] == 'e' && "iconsheet"@[7] == 'e' && "iconsheet"@[8] == 't',
        "info"@[0] == 'i' && "info"@[1] == 'n' && "info"@[2] == 'f' && "info"@[3] == 'o',
        "instances"@[0] == 'i' && "instances"@[1] == 'n' && "instances"@[2] == 's' && "instances"@[3] == 't' && "instances"@[4] == 'a' && "instances"@[5] == 'n' && "instances"@[6] == 'c' && "instances"@[7] == 'e' && "instances"@[8] == 's',
        "link"@[0] == 'l' && "link"@[1] == 'i' && "link"@[2] == 'n' && "link"@[3] == 'k',
        "matrices"@[0] == 'm' && "matrices"@[1] == 'a' && "matrices"@[2] == 't' && "matrices"@[3] == 'r' && "matrices"@[4] == 'i' && "matrices"@[5] == 'c' && "matrices"@[6] == 'e' && "matrices"@[7] == 's',
        "matrix"@[0] == 'm' && "matrix"@[1] == 'a' && "matrix"@[2] == 't' && "matrix"@[3] == 'r' && "matrix"@[4] == 'i' && "matrix"@[5] == 'x',
        "merge"@[0] == 'm' && "merge"@[1] == 'e' && "merge"@[2] == 'r' && "merge"@[3] == 'g' && "merge"@[4] == 'e',
        "move"@[0] == 'm' && "move"@[1] == 'o' && "move"@[2] == 'v' && "move"@[3] == 'e',
        "moveall"@[0] == 'm' && "moveall"@[1] == 'o' && "moveall"@[2] == 'v' && "moveall"@[3] == 'e' && "moveall"@[4] == 'a' && "moveall"@[5] == 'l' && "moveall"@[6] == 'l',
        "new"@[0] == 'n' && "new"@[1] == 'e' && "new"@[2] == 'w',
        "object"@[0] == 'o' && "object"@[1] == 'b' && "object"@[2] == 'j' && "object"@[3] == 'e' && "object"@[4] == 'c' && "object"@[5] == 't',
        "open"@[0] == 'o' && "open"@[1] == 'p' && "open"@[2] == 'e' && "open"@[3] == 'n',
        "pad"@[0] == 'p' && "pad"@[1] == 'a' && "pad"@[2] == 'd',
        "picture"@[0] == 'p' && "picture"@[1] == 'i' && "picture"@[2] == 'c' && "picture"@[3] == 't' && "picture"@[4] == 'u' && "picture"@[5] == 'r' && "picture"@[6] == 'e',
        "profile"@[0] == 'p' && "profile"@[1] == 'r' && "profile"@[2] == 'o' && "profile"@[3] == 'f' && "profile"@[4] == 'i' && "profile"@[5] == 'l' && "profile"@[6] == 'e',
        "project"@[0] == 'p' && "project"@[1] == 'r' && "project"@[2] == 'o' && "project"@[3] == 'j' && "project"@[4] == 'e' && "project"@[5] == 'c' && "project"@[6] == 't',
        "properties"@[0] == 'p' && "properties"@[1] == 'r' && "properties"@[2] == 'o' && "properties"@[3] == 'p' && "properties"@[4] == 'e' && "properties"@[5] == 'r' && "properties"@[6] == 't' && "properties"@[7] == 'i' && "properties"@[8] == 'e' && "properties"@[9] == 's',
        "props"@[0] == 'p' && "props"@[1] == 'r' && "props"@[2] == 'o' && "props"@[3] == 'p' && "props"@[4] == 's',
        "redo"@[0] == 'r' && "redo"@[1] == 'e' && "redo"@[2] == 'd' && "redo"@[3] == 'o',
        "remove"@[0] == 'r' && "remove"@[1] == 'e' && "remove"@[2] == 'm' && "remove"@[3] == 'o' && "remove"@[4] == 'v' && "remove"@[5] == 'e',
        "rename"@[0] == 'r' && "rename"@[1] == 'e' && "rename"@[2] == 'n' && "rename"@[3] == 'a' && "rename"@[4] == 'm' && "rename"@[5] == 'e',
        "reorder"@[0] == 'r' && "reorder"@[1] == 'e' && "reorder"@[2] == 'o' && "reorder"@[3] == 'r' && "reorder"@[4] == 'd' && "reorder"@[5] == 'e' && "reorder"@[6] == 'r',
        "replace"@[0] == 'r' && "replace"@[1] == 'e' && "replace"@[2] == 'p' && "replace"@[3] == 'l' && "replace"@[4] == 'a' && "replace"@[5] == 'c' && "replace"@[6] == 'e',
        "save"@[0] == 's' && "save"@[1] == 'a' && "save"@[2] == 'v' && "save"@[3] == 'e',
        "scheme"@[0] == 's' && "scheme"@[1] == 'c' && "scheme"@[2] == 'h' && "scheme"@[3] == 'e' && "scheme"@[4] == 'm' && "scheme"@[5] == 'e',
        "search"@[0] == 's' && "search"@[1] == 'e' && "search"@[2] == 'a' && "search"@[3] == 'r' && "search"@[4] == 'c' && "search"@[5] == 'h',
        "set"@[0] == 's' && "set"@[1] == 'e' && "set"@[2] == 't',
        "sheet"@[0] == 's' && "sheet"@[1] == 'h' && "sheet"@[2] == 'e' && "sheet"@[3] == 'e' && "sheet"@[4] == 't',
        "state"@[0] == 's' && "state"@[1] == 't' && "state"@[2] == 'a' && "state"@[3] == 't' && "state"@[4] == 'e',
        "style"@[0] == 's' && "style"@[1] == 't' && "style"@[2] == 'y' && "style"@[3] == 'l' && "style"@[4] == 'e',
        "text"@[0] == 't' && "text"@[1] == 'e' && "text"@[2] == 'x' && "text"@[3] == 't',
        "toggle"@[0] == 't' && "toggle"@[1] == 'o' && "toggle"@[2] == 'g' && "toggle"@[3] == 'g' && "toggle"@[4] == 'l' && "toggle"@[5] == 'e',
        "trace"@[0] == 't' && "trace"@[1] == 'r' && "trace"@[2] == 'a' && "trace"@[3] == 'c' && "trace"@[4] == 'e',
        "traces"@[0] == 't' && "traces"@[1] == 'r' && "traces"@[2] == 'a' && "traces"@[3] == 'c' && "traces"@[4] == 'e' && "traces"@[5] == 's',
        "undo"@[0] == 'u' && "undo"@[1] == 'n' && "undo"@[2] == 'd' && "undo"@[3] == 'o',
        "vars"@[0] == 'v' && "vars"@[1] == 'a' && "vars"@[2] == 'r' && "vars"@[3] == 's',
        "watch"@[0] == 'w' && "watch"@[1] == 'a' && "watch"@[2] == 't' && "watch"@[3] == 'c' && "watch"@[4] == 'h',
{
    reveal_strlit("GET");
    assert("GET"@.len() == 3 && "GET"@[0] == 'G' && "GET"@[1] == 'E' && "GET"@[2] == 'T');
    reveal_strlit("POST");
    assert("POST"@.len() == 4 && "POST"@[0] == 'P' && "POST"@[1] == 'O' && "POST"@[2] == 'S' && "POST"@[3] == 'T');
    reveal_strlit("add");
    assert("add"@.len() == 3 && "add"@[0] == 'a' && "add"@[1] == 'd' && "add"@[2] == 'd');
    reveal_strlit("breakpoint");
    assert("breakpoint"@.len() == 10 && "breakpoint"@[0] == 'b' && "breakpoint"@[1] == 'r' && "breakpoint"@[2] == 'e' && "breakpoint"@[3] == 'a' && "breakpoint"@[4] == 'k' && "breakpoint"@[5] == 'p' && "breakpoint"@[6] == 'o' && "breakpoint"@[7] == 'i' && "breakpoint"@[8] == 'n' && "breakpoint"@[9] == 't');
    reveal_strlit("breakpoints");
    assert("breakpoints"@.len() == 11 && "breakpoints"@[0] == 'b' && "breakpoints"@[1] == 'r' && "breakpoints"@[2] == 'e' && "breakpoints"@[3] == 'a' && "breakpoints"@[4] == 'k' && "breakpoints"@[5] == 'p' && "breakpoints"@[6] == 'o' && "breakpoints"@[7] == 'i' && "breakpoints"@[8] == 'n' && "breakpoints"@[9] == 't' && "breakpoints"@[10] == 's');
    reveal_strlit("browse");
    assert("browse"@.len() == 6 && "browse"@[0] == 'b' && "browse"@[1] == 'r' && "browse"@[2] == 'o' && "browse"@[3] == 'w' && "browse"@[4] == 's' && "browse"@[5] == 'e');
    reveal_strlit("check");
    assert("check"@.len() == 5 && "check"@[0] == 'c' && "check"@[1] == 'h' && "check"@[2] == 'e' && "check"@[3] == 'c' && "check"@[4] == 'k');
    reveal_strlit("child");
    assert("child"@.len() == 5 && "child"@[0] == 'c' && "child"@[1] == 'h' && "child"@[2] == 'i' && "child"@[3] == 'l' && "child"@[4] == 'd');
    reveal_strlit("class");
    assert("class"@.len() == 5 && "class"@[0] == 'c' && "class"@[1] == 'l' && "class"@[2] == 'a' && "class"@[3] == 's' && "class"@[4] == 's');
    reveal_strlit("delete");
    assert("delete"@.len() == 6 && "delete"@[0] == 'd' && "delete"@[1] == 'e' && "delete"@[2] == 'l' && "delete"@[3] == 'e' && "delete"@[4] == 't' && "delete"@[5] == 'e');
    reveal_strlit("eval");
    assert("eval"@.len() == 4 && "eval"@[0] == 'e' && "eval"@[1] == 'v' && "eval"@[2] == 'a' && "eval"@[3] == 'l');
    reveal_strlit("export");
    assert("export"@.len() == 6 && "export"@[0] == 'e' && "export"@[1] == 'x' && "export"@[2] == 'p' && "export"@[3] == 'o' && "export"@[4] == 'r' && "export"@[5] == 't');
    reveal_strlit("graph");
    assert("graph"@.len() == 5 && "graph"@[0] == 'g' && "graph"@[1] == 'r' && "graph"@[2] == 'a' && "graph"@[3] == 'p' && "graph"@[4] == 'h');
    reveal_strlit("help");
    assert("help"@.len() == 4 && "help"@[0] == 'h' && "help"@[1] == 'e' && "help"@[2] == 'l' && "help"@[3] == 'p');
    reveal_strlit("icon");
    assert("icon"@.len() == 4 && "icon"@[0] == 'i' && "icon"@[1] == 'c' && "icon"@[2] == 'o' && "icon"@[3] == 'n');
    reveal_strlit("icons");
    assert("icons"@.len() == 5 && "icons"@[0] == 'i' && "icons"@[1] == 'c' && "icons"@[2] == 'o' && "icons"@[3] == 'n' && "icons"@[4] == 's');
    reveal_strlit("iconsheet");
    assert("iconsheet"@.len() == 9 && "iconsheet"@[0] == 'i' && "iconsheet"@[1] == 'c' && "iconsheet"@[2] == 'o' && "iconsheet"@[3] == 'n' && "iconsheet"@[4] == 's' && "iconsheet"@[5] == 'h' && "iconsheet"@[6] == 'e' && "iconsheet"@[7] == 'e' && "iconsheet"@[8] == 't');
    reveal_strlit("info");
    assert("info"@.len() == 4 && "info"@[0] == 'i' && "info"@[1] == 'n' && "info"@[2] == 'f' && "info"@[3] == 'o');
    reveal_strlit("instances");
    assert("instances"@.len() == 9 && "instances"@[0] == 'i' && "instances"@[1] == 'n' && "instances"@[2] == 's' && "instances"@[3] == 't' && "instances"@[4] == 'a' && "instances"@[5] == 'n' && "instances"@[6] == 'c' && "instances"@[7] == 'e' && "instances"@[8] == 's');
    reveal_strlit("link");
    assert("link"@.len() == 4 && "link"@[0] == 'l' && "link"@[1] == 'i' && "link"@[2] == 'n' && "link"@[3] == 'k');
    reveal_strlit("matrices");
    assert("matrices"@.len() == 8 && "matrices"@[0] == 'm' && "matrices"@[1] == 'a' && "matrices"@[2] == 't' && "matrices"@[3] == 'r' && "matrices"@[4] == 'i' && "matrices"@[5] == 'c' && "matrices"@[6] == 'e' && "matrices"@[7] == 's');
    reveal_strlit("matrix");
    assert("matrix"@.len() == 6 && "matrix"@[0] == 'm' && "matrix"@[1] == 'a' && "matrix"@[2] == 't' && "matrix"@[3] == 'r' && "matrix"@[4] == 'i' && "matrix"@[5] == 'x');
    reveal_strlit("merge");
    assert("merge"@.len() == 5 && "merge"@[0] == 'm' && "merge"@[1] == 'e' && "merge"@[2] == 'r' && "merge"@[3] == 'g' && "merge"@[4] == 'e');
    reveal_strlit("move");
    assert("move"@.len() == 4 && "move"@[0] == 'm' && "move"@[1] == 'o' && "move"@[2] == 'v' && "move"@[3] == 'e');
    reveal_strlit("moveall");
    assert("moveall"@.len() == 7 && "moveall"@[0] == 'm' && "moveall"@[1] == 'o' && "moveall"@[2] == 'v' && "moveall"@[3] == 'e' && "moveall"@[4] == 'a' && "moveall"@[5] == 'l' && "moveall"@[6] == 'l');
    reveal_strlit("new");
    assert("new"@.len() == 3 && "new"@[0] == 'n' && "new"@[1] == 'e' && "new"@[2] == 'w');
    reveal_strlit("object");
    assert("object"@.len() == 6 && "object"@[0] == 'o' && "object"@[1] == 'b' && "object"@[2] == 'j' && "object"@[3] == 'e' && "object"@[4] == 'c' && "object"@[5] == 't');
    reveal_strlit("open");
    assert("open"@.len() == 4 && "open"@[0] == 'o' && "open"@[1] == 'p' && "open"@[2] == 'e' && "open"@[3] == 'n');
    reveal_strlit("pad");
    assert("pad"@.len() == 3 && "pad"@[0] == 'p' && "pad"@[1] == 'a' && "pad"@[2] == 'd');
    reveal_strlit("picture");
    assert("picture"@.len() == 7 && "picture"@[0] == 'p' && "picture"@[1] == 'i' && "picture"@[2] == 'c' && "picture"@[3] == 't' && "picture"@[4] == 'u' && "picture"@[5] == 'r' && "picture"@[6] == 'e');
    reveal_strlit("profile");
    assert("profile"@.len() == 7 && "profile"@[0] == 'p' && "profile"@[1] == 'r' && "profile"@[2] == 'o' && "profile"@[3] == 'f' && "profile"@[4] == 'i' && "profile"@[5] == 'l' && "profile"@[6] == 'e');
    reveal_strlit("project");
    assert("project"@.len() == 7 && "project"@[0] == 'p' && "project"@[1] == 'r' && "project"@[2] == 'o' && "project"@[3] == 'j' && "project"@[4] == 'e' && "project"@[5] == 'c' && "project"@[6] == 't');
    reveal_strlit("properties");
    assert("properties"@.len() == 10 && "properties"@[0] == 'p' && "properties"@[1] == 'r' && "properties"@[2] == 'o' && "properties"@[3] == 'p' && "properties"@[4] == 'e' && "properties"@[5] == 'r' && "properties"@[6] == 't' && "properties"@[7] == 'i' && "properties"@[8] == 'e' && "properties"@[9] == 's');
    reveal_strlit("props");
    assert("props"@.len() == 5 && "props"@[0] == 'p' && "props"@[1] == 'r' && "props"@[2] == 'o' && "props"@[3] == 'p' && "props"@[4] == 's');
    reveal_strlit("redo");
    assert("redo"@.len() == 4 && "redo"@[0] == 'r' && "redo"@[1] == 'e' && "redo"@[2] == 'd' && "redo"@[3] == 'o');
    reveal_strlit("remove");
    assert("remove"@.len() == 6 && "remove"@[0] == 'r' && "remove"@[1] == 'e' && "remove"@[2] == 'm' && "remove"@[3] == 'o' && "remove"@[4] == 'v' && "remove"@[5] == 'e');
    reveal_strlit("rename");
    assert("rename"@.len() == 6 && "rename"@[0] == 'r' && "rename"@[1] == 'e' && "rename"@[2] == 'n' && "rename"@[3] == 'a' && "rename"@[4] == 'm' && "rename"@[5] == 'e');
    reveal_strlit("reorder");
    assert("reorder"@.len() == 7 && "reorder"@[0] == 'r' && "reorder"@[1] == 'e' && "reorder"@[2] == 'o' && "reorder"@[3] == 'r' && "reorder"@[4] == 'd' && "reorder"@[5] == 'e' && "reorder"@[6] == 'r');
    reveal_strlit("replace");
    assert("replace"@.len() == 7 && "replace"@[0] == 'r' && "replace"@[1] == 'e' && "replace"@[2] == 'p' && "replace"@[3] == 'l' && "replace"@[4] == 'a' && "replace"@[5] == 'c' && "replace"@[6] == 'e');
    reveal_strlit("save");
    assert("save"@.len() == 4 && "save"@[0] == 's' && "save"@[1] == 'a' && "save"@[2] == 'v' && "save"@[3] == 'e');
    reveal_strlit("scheme");
    assert("scheme"@.len() == 6 && "scheme"@[0] == 's' && "scheme"@[1] == 'c' && "scheme"@[2] == 'h' && "scheme"@[3] == 'e' && "scheme"@[4] == 'm' && "scheme"@[5] == 'e');
    reveal_strlit("search");
    assert("search"@.len() == 6 && "search"@[0] == 's' && "search"@[1] == 'e' && "search"@[2] == 'a' && "search"@[3] == 'r' && "search"@[4] == 'c' && "search"@[5] == 'h');
    reveal_strlit("set");
    assert("set"@.len() == 3 && "set"@[0] == 's' && "set"@[1] == 'e' && "set"@[2] == 't');
    reveal_strlit("sheet");
    assert("sheet"@.len() == 5 && "sheet"@[0] == 's' && "sheet"@[1] == 'h' && "sheet"@[2] == 'e' && "sheet"@[3] == 'e' && "sheet"@[4] == 't');
    reveal_strlit("state");
    assert("state"@.len() == 5 && "state"@[0] == 's' && "state"@[1] == 't' && "state"@[2] == 'a' && "state"@[3] == 't' && "state"@[4] == 'e');
    reveal_strlit("style");
    assert("style"@.len() == 5 && "style"@[0] == 's' && "style"@[1] == 't' && "style"@[2] == 'y' && "style"@[3] == 'l' && "style"@[4] == 'e');
    reveal_strlit("text");
    assert("text"@.len() == 4 && "text"@[0] == 't' && "text"@[1] == 'e' && "text"@[2] == 'x' && "text"@[3] == 't');
    reveal_strlit("toggle");
    assert("toggle"@.len() == 6 && "toggle"@[0] == 't' && "toggle"@[1] == 'o' && "toggle"@[2] == 'g' && "toggle"@[3] == 'g' && "toggle"@[4] == 'l' && "toggle"@[5] == 'e');
    reveal_strlit("trace");
    assert("trace"@.len() == 5 && "trace"@[0] == 't' && "trace"@[1] == 'r' && "trace"@[2] == 'a' && "trace"@[3] == 'c' && "trace"@[4] == 'e');
    reveal_strlit("traces");
    assert("traces"@.len() == 6 && "traces"@[0] == 't' && "traces"@[1] == 'r' && "traces"@[2] == 'a' && "traces"@[3] == 'c' && "traces"@[4] == 'e' && "traces"@[5] == 's');
    reveal_strlit("undo");
    assert("undo"@.len() == 4 && "undo"@[0] == 'u' && "undo"@[1] == 'n' && "undo"@[2] == 'd' && "undo"@[3] == 'o');
    reveal_strlit("vars");
    assert("vars"@.len() == 4 && "vars"@[0] == 'v' && "vars"@[1] == 'a' && "vars"@[2] == 'r' && "vars"@[3] == 's');
    reveal_strlit("watch");
    assert("watch"@.len() == 5 && "watch"@[0] == 'w' && "watch"@[1] == 'a' && "watch"@[2] == 't' && "watch"@[3] == 'c' && "watch"@[4] == 'h');
}

/// Each answer of the API is reached by its own method and path, and by no
/// other: for every answer, a request gets it exactly when its method is
/// the one the answer is for and the segments of its path after `/api/`
/// are that answer's (a request for a picture by another method than GET or
/// POST gets `PictureWrongMethod`).
#[verifier::spinoff_prover]
#[verifier::rlimit(100)]
pub proof fn law_route_paths(m: Seq<char>, ps: Seq<Seq<char>>)
    ensures
        route_for(m, ps) == Route::Project <==> (m == "GET"@ && ps.len() == 1 && ps[0] == "project"@),
        route_for(m, ps) == Route::Class <==> (m == "GET"@ && ps.len() == 2 && ps[0] == "class"@),
        route_for(m, ps) == Route::Icon <==> (m == "GET"@ && ps.len() == 2 && ps[0] == "icon"@),
        route_for(m, ps) == Route::Scheme <==> (m == "GET"@ && ps.len() == 2 && ps[0] == "scheme"@),
        route_for(m, ps) == Route::ClassText <==> (m == "POST"@ && ps.len() == 3 && ps[0] == "class"@ && ps[2] == "text"@),
        route_for(m, ps) == Route::ClassVars <==> (m == "POST"@ && ps.len() == 3 && ps[0] == "class"@ && ps[2] == "vars"@),
        route_for(m, ps) == Route::ChildMove <==> (m == "POST"@ && ps.len() == 2 && ps[0] == "child"@ && ps[1] == "move"@),
        route_for(m, ps) == Route::ChildMoveAll <==> (m == "POST"@ && ps.len() == 2 && ps[0] == "child"@ && ps[1] == "moveall"@),
        route_for(m, ps) == Route::ChildAdd <==> (m == "POST"@ && ps.len() == 2 && ps[0] == "child"@ && ps[1] == "add"@),
        route_for(m, ps) == Route::ChildRemove <==> (m == "POST"@ && ps.len() == 2 && ps[0] == "child"@ && ps[1] == "remove"@),
        route_for(m, ps) == Route::ChildReplace <==> (m == "POST"@ && ps.len() == 2 && ps[0] == "child"@ && ps[1] == "replace"@),
        route_for(m, ps) == Route::ChildMerge <==> (m == "POST"@ && ps.len() == 2 && ps[0] == "child"@ && ps[1] == "merge"@),
        route_for(m, ps) == Route::ChildRename <==> (m == "POST"@ && ps.len() == 2 && ps[0] == "child"@ && ps[1] == "rename"@),
        route_for(m, ps) == Route::LinkSet <==> (m == "POST"@ && ps.len() == 2 && ps[0] == "link"@ && ps[1] == "set"@),
        route_for(m, ps) == Route::Pad <==> (m == "POST"@ && ps.len() == 2 && ps[0] == "pad"@),
        route_for(m, ps) == Route::LinkStyle <==> (m == "POST"@ && ps.len() == 2 && ps[0] == "link"@ && ps[1] == "style"@),
        route_for(m, ps) == Route::ClassSheet <==> (m == "POST"@ && ps.len() == 3 && ps[0] == "class"@ && ps[2] == "sheet"@),
        route_for(m, ps) == Route::ClassProps <==> (m == "POST"@ && ps.len() == 3 && ps[0] == "class"@ && ps[2] == "props"@),
        route_for(m, ps) == Route::ChildReorder <==> (m == "POST"@ && ps.len() == 2 && ps[0] == "child"@ && ps[1] == "reorder"@),
        route_for(m, ps) == Route::ProjectProperties <==> (m == "GET"@ && ps.len() == 2 && ps[0] == "project"@ && ps[1] == "properties"@),
        route_for(m, ps) == Route::SetProjectProperty <==> (m == "POST"@ && ps.len() == 2 && ps[0] == "project"@ && ps[1] == "properties"@),
        route_for(m, ps) == Route::Matrices <==> (m == "GET"@ && ps.len() == 1 && ps[0] == "matrices"@),
        route_for(m, ps) == Route::Matrix <==> (m == "GET"@ && ps.len() == 2 && ps[0] == "matrix"@),
        route_for(m, ps) == Route::SetMatrix <==> (m == "POST"@ && ps.len() == 2 && ps[0] == "matrix"@),
        route_for(m, ps) == Route::Icons <==> (m == "GET"@ && ps.len() == 1 && ps[0] == "icons"@),
        route_for(m, ps) == Route::IconSheet <==> (m == "GET"@ && ps.len() == 1 && ps[0] == "iconsheet"@),
        route_for(m, ps) == Route::ClassIcon <==> (m == "POST"@ && ps.len() == 3 && ps[0] == "class"@ && ps[2] == "icon"@),
        route_for(m, ps) == Route::Check <==> (m == "GET"@ && ps.len() == 1 && ps[0] == "check"@),
        route_for(m, ps) == Route::LinkRemove <==> (m == "POST"@ && ps.len() == 2 && ps[0] == "link"@ && ps[1] == "remove"@),
        route_for(m, ps) == Route::ClassNew <==> (m == "POST"@ && ps.len() == 2 && ps[0] == "class"@ && ps[1] == "new"@),
        route_for(m, ps) == Route::TraceAdd <==> (m == "POST"@ && ps.len() == 2 && ps[0] == "trace"@ && ps[1] == "add"@),
        route_for(m, ps) == Route::TraceRemove <==> (m == "POST"@ && ps.len() == 2 && ps[0] == "trace"@ && ps[1] == "remove"@),
        route_for(m, ps) == Route::Traces <==> (m == "GET"@ && ps.len() == 1 && ps[0] == "traces"@),
        route_for(m, ps) == Route::ClassRename <==> (m == "POST"@ && ps.len() == 3 && ps[0] == "class"@ && ps[2] == "rename"@),
        route_for(m, ps) == Route::ClassDelete <==> (m == "POST"@ && ps.len() == 3 && ps[0] == "class"@ && ps[2] == "delete"@),
        route_for(m, ps) == Route::BreakpointAdd <==> (m == "POST"@ && ps.len() == 2 && ps[0] == "breakpoint"@ && ps[1] == "add"@),
        route_for(m, ps) == Route::BreakpointRemove <==> (m == "POST"@ && ps.len() == 2 && ps[0] == "breakpoint"@ && ps[1] == "remove"@),
        route_for(m, ps) == Route::BreakpointToggle <==> (m == "POST"@ && ps.len() == 2 && ps[0] == "breakpoint"@ && ps[1] == "toggle"@),
        route_for(m, ps) == Route::Breakpoints <==> (m == "GET"@ && ps.len() == 1 && ps[0] == "breakpoints"@),
        route_for(m, ps) == Route::Eval <==> (m == "POST"@ && ps.len() == 2 && ps[0] == "eval"@),
        route_for(m, ps) == Route::Profile <==> (m == "GET"@ && ps.len() == 1 && ps[0] == "profile"@),
        route_for(m, ps) == Route::Help <==> (m == "GET"@ && ps.len() == 1 && ps[0] == "help"@),
        route_for(m, ps) == Route::HelpTopic <==> (m == "GET"@ && ps.len() == 2 && ps[0] == "help"@),
        route_for(m, ps) == Route::Open <==> (m == "POST"@ && ps.len() == 1 && ps[0] == "open"@),
        route_for(m, ps) == Route::New <==> (m == "POST"@ && ps.len() == 1 && ps[0] == "new"@),
        route_for(m, ps) == Route::Info <==> (m == "GET"@ && ps.len() == 1 && ps[0] == "info"@),
        route_for(m, ps) == Route::Browse <==> (m == "GET"@ && ps.len() == 1 && ps[0] == "browse"@),
        route_for(m, ps) == Route::Object <==> (m == "GET"@ && ps.len() == 1 && ps[0] == "object"@),
        route_for(m, ps) == Route::ObjectSet <==> (m == "POST"@ && ps.len() == 2 && ps[0] == "object"@ && ps[1] == "set"@),
        route_for(m, ps) == Route::Graph <==> (m == "GET"@ && ps.len() == 2 && ps[0] == "graph"@),
        route_for(m, ps) == Route::PictureRead <==> (m == "GET"@ && ps.len() == 2 && ps[0] == "picture"@),
        route_for(m, ps) == Route::PictureEdit <==> (m == "POST"@ && ps.len() == 2 && ps[0] == "picture"@),
        route_for(m, ps) == Route::PictureWrongMethod <==> (m != "GET"@ && m != "POST"@ && ps.len() == 2 && ps[0] == "picture"@),
        route_for(m, ps) == Route::State <==> (m == "POST"@ && ps.len() == 2 && ps[0] == "state"@),
        route_for(m, ps) == Route::Search <==> (m == "GET"@ && ps.len() == 1 && ps[0] == "search"@),
        route_for(m, ps) == Route::Undo <==> (m == "POST"@ && ps.len() == 1 && ps[0] == "undo"@),
        route_for(m, ps) == Route::Redo <==> (m == "POST"@ && ps.len() == 1 && ps[0] == "redo"@),
        route_for(m, ps) == Route::Save <==> (m == "POST"@ && ps.len() == 1 && ps[0] == "save"@),
        route_for(m, ps) == Route::Export <==> (m == "POST"@ && ps.len() == 1 && ps[0] == "export"@),
        route_for(m, ps) == Route::Instances <==> (m == "GET"@ && ps.len() == 1 && ps[0] == "instances"@),
        route_for(m, ps) == Route::Watch <==> (m == "GET"@ && ps.len() == 2 && ps[0] == "watch"@),
        route_for(m, ps) == Route::SetValue <==> (m == "POST"@ && ps.len() == 2 && ps[0] == "set"@),
{
    lemma_route_words();
}

/// Splitting a text with no `/` gives the text alone; a text split into one
/// segment is that segment.
proof fn lemma_one_segment(t: Seq<char>)
    ensures
        segments_from(t, 0).len() == 1 ==> segments_from(t, 0)[0] == t,
        (forall|k: int| 0 <= k < t.len() ==> t[k] != '/') ==> segments_from(t, 0) == seq![t],
{
    lemma_field_end(t, 0, '/');
    let e = field_end(t, 0, '/');
    if e < t.len() {
        lemma_segments_nonempty(t, e + 1);
    } else {
        assert(t.subrange(0, t.len() as int) =~= t);
    }
}

proof fn lemma_segments_nonempty(t: Seq<char>, i: int)
    requires
        0 <= i <= t.len(),
    ensures
        segments_from(t, i).len() >= 1,
{
    lemma_field_end(t, i, '/');
}

/// The rest after `/api/` is a given non-empty text exactly for the path
/// `/api/` followed by it.
proof fn lemma_api_path(p: Seq<char>, x: Seq<char>)
    requires
        x.len() > 0,
    ensures
        api_rest(p) == x <==> p == "/api/"@ + x,
{
    reveal_strlit("/api/");
    if has_at(p, 0, "/api/"@) {
        assert(p =~= "/api/"@ + p.subrange(5, p.len() as int));
        if p == "/api/"@ + x {
            assert(p.subrange(5, p.len() as int) =~= x);
        }
    } else {
        if p == "/api/"@ + x {
            assert(p.subrange(0, 5) =~= "/api/"@);
        }
    }
}

/// Each answer of the API for a single word is reached by its method and
/// the path `/api/` and that word, and by no other request: `/api/traces`
/// by GET lists the traces, `/api/breakpoints` by GET the breakpoints, and
/// so on.
#[verifier::spinoff_prover]
#[verifier::rlimit(100)]
pub proof fn law_route_single_paths(m: Seq<char>, p: Seq<char>)
    ensures
        route_of(m, p) == Route::Project <==> (m == "GET"@ && p == "/api/"@ + "project"@),
        route_of(m, p) == Route::Matrices <==> (m == "GET"@ && p == "/api/"@ + "matrices"@),
        route_of(m, p) == Route::Icons <==> (m == "GET"@ && p == "/api/"@ + "icons"@),
        route_of(m, p) == Route::IconSheet <==> (m == "GET"@ && p == "/api/"@ + "iconsheet"@),
        route_of(m, p) == Route::Check <==> (m == "GET"@ && p == "/api/"@ + "check"@),
        route_of(m, p) == Route::Traces <==> (m == "GET"@ && p == "/api/"@ + "traces"@),
        route_of(m, p) == Route::Breakpoints <==> (m == "GET"@ && p == "/api/"@ + "breakpoints"@),
        route_of(m, p) == Route::Profile <==> (m == "GET"@ && p == "/api/"@ + "profile"@),
        route_of(m, p) == Route::Help <==> (m == "GET"@ && p == "/api/"@ + "help"@),
        route_of(m, p) == Route::Open <==> (m == "POST"@ && p == "/api/"@ + "open"@),
        route_of(m, p) == Route::New <==> (m == "POST"@ && p == "/api/"@ + "new"@),
        route_of(m, p) == Route::Info <==> (m == "GET"@ && p == "/api/"@ + "info"@),
        route_of(m, p) == Route::Browse <==> (m == "GET"@ && p == "/api/"@ + "browse"@),
        route_of(m, p) == Route::Object <==> (m == "GET"@ && p == "/api/"@ + "object"@),
        route_of(m, p) == Route::Search <==> (m == "GET"@ && p == "/api/"@ + "search"@),
        route_of(m, p) == Route::Undo <==> (m == "POST"@ && p == "/api/"@ + "undo"@),
        route_of(m, p) == Route::Redo <==> (m == "POST"@ && p == "/api/"@ + "redo"@),
        route_of(m, p) == Route::Save <==> (m == "POST"@ && p == "/api/"@ + "save"@),
        route_of(m, p) == Route::Export <==> (m == "POST"@ && p == "/api/"@ + "export"@),
        route_of(m, p) == Route::Instances <==> (m == "GET"@ && p == "/api/"@ + "instances"@),
{
    let rest = api_rest(p);
    let ps = segments_from(rest, 0);
    law_route_paths(m, ps);
    lemma_route_words();
    lemma_one_segment(rest);
    lemma_api_path(p, "breakpoints"@);
    assert(forall|k: int| 0 <= k < "breakpoints"@.len() ==> "breakpoints"@[k] != '/');
    lemma_one_segment("breakpoints"@);
    lemma_api_path(p, "browse"@);
    assert(forall|k: int| 0 <= k < "browse"@.len() ==> "browse"@[k] != '/');
    lemma_one_segment("browse"@);
    lemma_api_path(p, "check"@);
    assert(forall|k: int| 0 <= k < "check"@.len() ==> "check"@[k] != '/');
    lemma_one_segment("check"@);
    lemma_api_path(p, "export"@);
    assert(forall|k: int| 0 <= k < "export"@.len() ==> "export"@[k] != '/');
    lemma_one_segment("export"@);
    lemma_api_path(p, "help"@);
    assert(forall|k: int| 0 <= k < "help"@.len() ==> "help"@[k] != '/');
    lemma_one_segment("help"@);
    lemma_api_path(p, "icons"@);
    assert(forall|k: int| 0 <= k < "icons"@.len() ==> "icons"@[k] != '/');
    lemma_one_segment("icons"@);
    lemma_api_path(p, "iconsheet"@);
    assert(forall|k: int| 0 <= k < "iconsheet"@.len() ==> "iconsheet"@[k] != '/');
    lemma_one_segment("iconsheet"@);
    lemma_api_path(p, "info"@);
    assert(forall|k: int| 0 <= k < "info"@.len() ==> "info"@[k] != '/');
    lemma_one_segment("info"@);
    lemma_api_path(p, "instances"@);
    assert(forall|k: int| 0 <= k < "instances"@.len() ==> "instances"@[k] != '/');
    lemma_one_segment("instances"@);
    lemma_api_path(p, "matrices"@);
    assert(forall|k: int| 0 <= k < "matrices"@.len() ==> "matrices"@[k] != '/');
    lemma_one_segment("matrices"@);
    lemma_api_path(p, "new"@);
    assert(forall|k: int| 0 <= k < "new"@.len() ==> "new"@[k] != '/');
    lemma_one_segment("new"@);
    lemma_api_path(p, "object"@);
    assert(forall|k: int| 0 <= k < "object"@.len() ==> "object"@[k] != '/');
    lemma_one_segment("object"@);
    lemma_api_path(p, "open"@);
    assert(forall|k: int| 0 <= k < "open"@.len() ==> "open"@[k] != '/');
    lemma_one_segment("open"@);
    lemma_api_path(p, "profile"@);
    assert(forall|k: int| 0 <= k < "profile"@.len() ==> "profile"@[k] != '/');
    lemma_one_segment("profile"@);
    lemma_api_path(p, "project"@);
    assert(forall|k: int| 0 <= k < "project"@.len() ==> "project"@[k] != '/');
    lemma_one_segment("project"@);
    lemma_api_path(p, "redo"@);
    assert(forall|k: int| 0 <= k < "redo"@.len() ==> "redo"@[k] != '/');
    lemma_one_segment("redo"@);
    lemma_api_path(p, "save"@);
    assert(forall|k: int| 0 <= k < "save"@.len() ==> "save"@[k] != '/');
    lemma_one_segment("save"@);
    lemma_api_path(p, "search"@);
    assert(forall|k: int| 0 <= k < "search"@.len() ==> "search"@[k] != '/');
    lemma_one_segment("search"@);
    lemma_api_path(p, "traces"@);
    assert(forall|k: int| 0 <= k < "traces"@.len() ==> "traces"@[k] != '/');
    lemma_one_segment("traces"@);
    lemma_api_path(p, "undo"@);
    assert(forall|k: int| 0 <= k < "undo"@.len() ==> "undo"@[k] != '/');
    lemma_one_segment("undo"@);
}

/// The answer for a request.
pub open spec fn route_of(method: Seq<char>, path: Seq<char>) -> Route {
    route_for(method, segments_from(api_rest(path), 0))
}

fn seg_is(ps: &Vec<Vec<char>>, k: usize, lit: &str) -> (b: bool)
    requires
        k < ps@.len(),
    ensures
        b == (ps@[k as int]@ == lit@),
{
    chars_eq(&ps[k], &chars_of(lit))
}

fn segments(s: &Vec<char>) -> (r: Vec<Vec<char>>)
    ensures
        r@.map_values(|x: Vec<char>| x@) == segments_from(s@, 0),
{
    let mut r: Vec<Vec<char>> = Vec::new();
    let mut i: usize = 0;
    loop
        invariant
            i <= s@.len(),
            r@.map_values(|x: Vec<char>| x@) + segments_from(s@, i as int) == segments_from(s@, 0),
        decreases s@.len() - i,
    {
        proof {
            lemma_field_end(s@, i as int, '/');
        }
        let mut e = i;
        while e < s.len() && s[e] != '/'
            invariant
                i <= e <= s@.len(),
                field_end(s@, i as int, '/') == field_end(s@, e as int, '/'),
            decreases s.len() - e,
        {
            e = e + 1;
        }
        let ghost before = r@;
        r.push(sub_chars(s, i, e));
        assert(r@.map_values(|x: Vec<char>| x@) =~= before.map_values(|x: Vec<char>| x@).push(s@.subrange(i as int, e as int)));
        if e < s.len() {
            assert(segments_from(s@, i as int) == seq![s@.subrange(i as int, e as int)] + segments_from(s@, e + 1));
            assert(r@.map_values(|x: Vec<char>| x@) + segments_from(s@, e + 1) =~= before.map_values(|x: Vec<char>| x@) + segments_from(s@, i as int));
            i = e + 1;
        } else {
            assert(segments_from(s@, i as int) == seq![s@.subrange(i as int, s@.len() as int)]);
            assert(r@.map_values(|x: Vec<char>| x@) =~= before.map_values(|x: Vec<char>| x@) + segments_from(s@, i as int));
            return r;
        }
    }
}

/// The answer the server gives a request with `method` and `path`; every
/// answer that changes state is reached only by POST.
pub fn route(method: &str, path: &str) -> (r: Route)
    ensures
        r == route_of(method@, path@),
        changes_state(r) ==> method@ == "POST"@,
{
    let c = chars_of(path);
    let prefix = chars_of("/api/");
    let rest = if chars_at(&c, 0, &prefix) {
        sub_chars(&c, prefix.len(), c.len())
    } else {
        Vec::new()
    };
    assert(rest@ == api_rest(path@));
    let ps = segments(&rest);
    let ghost pv = ps@.map_values(|x: Vec<char>| x@);
    assert(pv == segments_from(api_rest(path@), 0));
    let n = ps.len();
    let get = str_same(method, "GET");
    let post = str_same(method, "POST");
    let r = route_in(&ps, get, post, method);
    r
}

#[verifier::rlimit(50)]
fn route_in(ps: &Vec<Vec<char>>, get: bool, post: bool, method: &str) -> (r: Route)
    requires
        get == (method@ == "GET"@),
        post == (method@ == "POST"@),
    ensures
        r == route_for(method@, ps@.map_values(|x: Vec<char>| x@)),
{
    let ghost pv = ps@.map_values(|x: Vec<char>| x@);
    assert(pv.len() == ps@.len());
    assert(forall|k: int| 0 <= k < ps@.len() ==> pv[k] == #[trigger] ps@[k]@);
    let n = ps.len();
    if get && n == 1 && seg_is(ps, 0, "project") {
        Route::Project
    } else if get && n == 2 && seg_is(ps, 0, "class") {
        Route::Class
    } else if get && n == 2 && seg_is(ps, 0, "icon") {
        Route::Icon
    } else if get && n == 2 && seg_is(ps, 0, "scheme") {
        Route::Scheme
    } else if post && n == 3 && seg_is(ps, 0, "class") && seg_is(ps, 2, "text") {
        Route::ClassText
    } else if post && n == 3 && seg_is(ps, 0, "class") && seg_is(ps, 2, "vars") {
        Route::ClassVars
    } else if post && n == 2 && seg_is(ps, 0, "child") && seg_is(ps, 1, "move") {
        Route::ChildMove
    } else if post && n == 2 && seg_is(ps, 0, "child") && seg_is(ps, 1, "moveall") {
        Route::ChildMoveAll
    } else if post && n == 2 && seg_is(ps, 0, "child") && seg_is(ps, 1, "add") {
        Route::ChildAdd
    } else if post && n == 2 && seg_is(ps, 0, "child") && seg_is(ps, 1, "remove") {
        Route::ChildRemove
    } else if post && n == 2 && seg_is(ps, 0, "child") && seg_is(ps, 1, "replace") {
        Route::ChildReplace
    } else if post && n == 2 && seg_is(ps, 0, "child") && seg_is(ps, 1, "merge") {
        Route::ChildMerge
    } else if post && n == 2 && seg_is(ps, 0, "child") && seg_is(ps, 1, "rename") {
        Route::ChildRename
    } else if post && n == 2 && seg_is(ps, 0, "link") && seg_is(ps, 1, "set") {
        Route::LinkSet
    } else if post && n == 2 && seg_is(ps, 0, "pad") {
        Route::Pad
    } else if post && n == 2 && seg_is(ps, 0, "link") && seg_is(ps, 1, "style") {
        Route::LinkStyle
    } else if post && n == 3 && seg_is(ps, 0, "class") && seg_is(ps, 2, "sheet") {
        Route::ClassSheet
    } else if post && n == 3 && seg_is(ps, 0, "class") && seg_is(ps, 2, "props") {
        Route::ClassProps
    } else if post && n == 2 && seg_is(ps, 0, "child") && seg_is(ps, 1, "reorder") {
        Route::ChildReorder
    } else if get && n == 2 && seg_is(ps, 0, "project") && seg_is(ps, 1, "properties") {
        Route::ProjectProperties
    } else if post && n == 2 && seg_is(ps, 0, "project") && seg_is(ps, 1, "properties") {
        Route::SetProjectProperty
    } else if get && n == 1 && seg_is(ps, 0, "matrices") {
        Route::Matrices
    } else if get && n == 2 && seg_is(ps, 0, "matrix") {
        Route::Matrix
    } else if post && n == 2 && seg_is(ps, 0, "matrix") {
        Route::SetMatrix
    } else if get && n == 1 && seg_is(ps, 0, "icons") {
        Route::Icons
    } else if get && n == 1 && seg_is(ps, 0, "iconsheet") {
        Route::IconSheet
    } else if post && n == 3 && seg_is(ps, 0, "class") && seg_is(ps, 2, "icon") {
        Route::ClassIcon
    } else if get && n == 1 && seg_is(ps, 0, "check") {
        Route::Check
    } else if post && n == 2 && seg_is(ps, 0, "link") && seg_is(ps, 1, "remove") {
        Route::LinkRemove
    } else if post && n == 2 && seg_is(ps, 0, "class") && seg_is(ps, 1, "new") {
        Route::ClassNew
    } else if post && n == 2 && seg_is(ps, 0, "trace") && seg_is(ps, 1, "add") {
        Route::TraceAdd
    } else if post && n == 2 && seg_is(ps, 0, "trace") && seg_is(ps, 1, "remove") {
        Route::TraceRemove
    } else if get && n == 1 && seg_is(ps, 0, "traces") {
        Route::Traces
    } else if post && n == 3 && seg_is(ps, 0, "class") && seg_is(ps, 2, "rename") {
        Route::ClassRename
    } else if post && n == 3 && seg_is(ps, 0, "class") && seg_is(ps, 2, "delete") {
        Route::ClassDelete
    } else if post && n == 2 && seg_is(ps, 0, "breakpoint") && seg_is(ps, 1, "add") {
        Route::BreakpointAdd
    } else if post && n == 2 && seg_is(ps, 0, "breakpoint") && seg_is(ps, 1, "remove") {
        Route::BreakpointRemove
    } else if post && n == 2 && seg_is(ps, 0, "breakpoint") && seg_is(ps, 1, "toggle") {
        Route::BreakpointToggle
    } else if get && n == 1 && seg_is(ps, 0, "breakpoints") {
        Route::Breakpoints
    } else if post && n == 2 && seg_is(ps, 0, "eval") {
        Route::Eval
    } else if get && n == 1 && seg_is(ps, 0, "profile") {
        Route::Profile
    } else if get && n == 1 && seg_is(ps, 0, "help") {
        Route::Help
    } else if get && n == 2 && seg_is(ps, 0, "help") {
        Route::HelpTopic
    } else if post && n == 1 && seg_is(ps, 0, "open") {
        Route::Open
    } else if post && n == 1 && seg_is(ps, 0, "new") {
        Route::New
    } else if get && n == 1 && seg_is(ps, 0, "info") {
        Route::Info
    } else if get && n == 1 && seg_is(ps, 0, "browse") {
        Route::Browse
    } else if get && n == 1 && seg_is(ps, 0, "object") {
        Route::Object
    } else if post && n == 2 && seg_is(ps, 0, "object") && seg_is(ps, 1, "set") {
        Route::ObjectSet
    } else if get && n == 2 && seg_is(ps, 0, "graph") {
        Route::Graph
    } else if get && n == 2 && seg_is(ps, 0, "picture") {
        Route::PictureRead
    } else if post && n == 2 && seg_is(ps, 0, "picture") {
        Route::PictureEdit
    } else if n == 2 && seg_is(ps, 0, "picture") {
        Route::PictureWrongMethod
    } else if post && n == 2 && seg_is(ps, 0, "state") {
        Route::State
    } else if get && n == 1 && seg_is(ps, 0, "search") {
        Route::Search
    } else if post && n == 1 && seg_is(ps, 0, "undo") {
        Route::Undo
    } else if post && n == 1 && seg_is(ps, 0, "redo") {
        Route::Redo
    } else if post && n == 1 && seg_is(ps, 0, "save") {
        Route::Save
    } else if post && n == 1 && seg_is(ps, 0, "export") {
        Route::Export
    } else if get && n == 1 && seg_is(ps, 0, "instances") {
        Route::Instances
    } else if get && n == 2 && seg_is(ps, 0, "watch") {
        Route::Watch
    } else if post && n == 2 && seg_is(ps, 0, "set") {
        Route::SetValue
    } else {
        Route::NotFound
    }
}

} // verus!
