//! Functions and call sites of the profiled program, by number.

use vstd::prelude::*;

verus! {

/// Number of a function of the profiled program: a name and a file.
#[derive(Clone, Copy, Debug, PartialEq, Eq, Hash, Structural)]
pub struct FunctionId(pub u64);

/// Number that stands for a function that could not be registered.
pub const UNKNOWN_FUNCTION: u64 = 0xffff_ffff_ffff_ffff;

impl FunctionId {
    /// The function with number `id`.
    pub fn new(id: u64) -> (f: FunctionId)
        ensures
            f == FunctionId(id),
    {
        FunctionId(id)
    }

    /// The number.
    pub fn as_u64(&self) -> (id: u64)
        ensures
            id == self.0,
    {
        self.0
    }

    /// The id that is handed out where a function could not be registered.
    pub fn unknown() -> (f: FunctionId)
        ensures
            f == FunctionId(UNKNOWN_FUNCTION),
    {
        FunctionId(UNKNOWN_FUNCTION)
    }

    /// Whether this is the id of an unregistered function.
    pub open spec fn is_unknown(self) -> bool {
        self.0 == UNKNOWN_FUNCTION
    }
}

/// Name of a function and of the file that defines it.
#[derive(Clone)]
pub struct FunctionLocation {
    pub filename: String,
    pub function_name: String,
}

/// Function name and then file name, as text.
pub type LocationText = (Seq<char>, Seq<char>);

/// A catalog that names the function behind an id.
pub trait FunctionLocations {
    /// Whether the catalog can name `id`: any id, unless the catalog says
    /// otherwise.
    open spec fn knows(&self, id: FunctionId) -> bool {
        true
    }

    /// Name of the function and name of its file: those of an unknown
    /// function, unless the catalog says otherwise.
    open spec fn location(&self, id: FunctionId) -> LocationText {
        unknown_location()
    }

    /// Name of the function and name of its file.
    fn get_function_and_filename(&self, id: FunctionId) -> (names: (&str, &str))
        requires
            self.knows(id),
        ensures
            names.0@ == self.location(id).0,
            names.1@ == self.location(id).1,
    ;
}

/// Catalog that numbers functions in the order in which they are
/// registered.
#[derive(Clone)]
pub struct VecFunctionLocations {
    functions: Vec<FunctionLocation>,
}

/// Names given for the id of an unregistered function.
pub open spec fn unknown_location() -> LocationText {
    ("UNKNOWN"@, "UNKNOWN DUE TO BUG"@)
}

impl View for VecFunctionLocations {
    type V = Seq<LocationText>;

    /// Function name and file name of each registered function, by id.
    closed spec fn view(&self) -> Seq<LocationText> {
        Seq::new(
            self.functions@.len(),
            |i: int| (self.functions@[i].function_name@, self.functions@[i].filename@),
        )
    }
}

impl VecFunctionLocations {
    /// A catalog without functions.
    pub fn new() -> (catalog: Self)
        ensures
            catalog@ == Seq::<LocationText>::empty(),
    {
        let catalog = Self { functions: Vec::with_capacity(8192) };
        assert(catalog@ =~= Seq::<LocationText>::empty());
        catalog
    }

    /// Whether the catalog can name `id`.
    pub fn is_known(&self, id: FunctionId) -> (known: bool)
        ensures
            known == self.knows(id),
    {
        let count = self.functions.len();
        assert(self@.len() == count);
        id.0 == UNKNOWN_FUNCTION || id.0 < count as u64
    }

    /// Number of functions registered.
    pub fn len(&self) -> (n: usize)
        ensures
            n == self@.len(),
    {
        self.functions.len()
    }

    /// Registers a function and returns its id: the number of functions
    /// registered before it.
    pub fn add_function(&mut self, filename: String, function_name: String) -> (id: FunctionId)
        requires
            old(self)@.len() < UNKNOWN_FUNCTION,
        ensures
            id.0 == old(self)@.len(),
            final(self)@ == old(self)@.push((function_name@, filename@)),
    {
        self.functions.push(FunctionLocation { filename, function_name });
        assert(self@ =~= old(self)@.push((function_name@, filename@)));
        FunctionId((self.functions.len() - 1) as u64)
    }
}

impl FunctionLocations for VecFunctionLocations {
    open spec fn knows(&self, id: FunctionId) -> bool {
        id.is_unknown() || id.0 < self@.len()
    }

    open spec fn location(&self, id: FunctionId) -> LocationText {
        if id.is_unknown() {
            unknown_location()
        } else {
            self@[id.0 as int]
        }
    }

    fn get_function_and_filename(&self, id: FunctionId) -> (names: (&str, &str)) {
        if id.0 == UNKNOWN_FUNCTION {
            return ("UNKNOWN", "UNKNOWN DUE TO BUG");
        }
        let count = self.functions.len();
        proof {
            assert(self@.len() == count);
            assert(self@[id.0 as int] == (
                self.functions@[id.0 as int].function_name@,
                self.functions@[id.0 as int].filename@,
            ));
        }
        let location = &self.functions[id.0 as usize];
        (location.function_name.as_str(), location.filename.as_str())
    }
}

/// The line of a call site: known, or still to be worked out from an index
/// into the function's bytecode.
#[derive(Clone, Copy, Debug, PartialEq, Eq, Hash, Structural)]
pub enum LineNumberInfo {
    LineNumber(u32),
    BytecodeIndex(i32),
}

impl LineNumberInfo {
    /// The line where it is known, else 0.
    pub open spec fn line(self) -> u32 {
        match self {
            LineNumberInfo::LineNumber(lineno) => lineno,
            LineNumberInfo::BytecodeIndex(_) => 0,
        }
    }

    /// The line where it is known, else 0.
    pub fn get_line_number(&self) -> (lineno: u32)
        ensures
            lineno == self.line(),
    {
        match self {
            LineNumberInfo::LineNumber(lineno) => *lineno,
            LineNumberInfo::BytecodeIndex(_) => 0,
        }
    }
}

/// A place in the program: a function and a line in its file (counted from
/// 1).
#[derive(Clone, Copy, Debug, PartialEq, Eq, Hash, Structural)]
pub struct CallSiteId {
    pub function: FunctionId,
    pub line_number: LineNumberInfo,
}

impl CallSiteId {
    /// The call site in `function` at `line_number`.
    pub fn new(function: FunctionId, line_number: LineNumberInfo) -> (site: CallSiteId)
        ensures
            site == (CallSiteId { function, line_number }),
    {
        CallSiteId { function, line_number }
    }

    /// The same function at the known line `line`.
    pub open spec fn at_line(self, line: u32) -> CallSiteId {
        CallSiteId { function: self.function, line_number: LineNumberInfo::LineNumber(line) }
    }
}

} // verus!
