use vstd::prelude::*;
use crate::name::Name;

verus! {

/// One diagnostic position: a source file and the line the span starts on.
/// Locations never take part in identity or staleness decisions.
pub struct Location {
    pub file: String,
    pub line: usize,
}

/// The digit character of one decimal digit.
pub open spec fn dec_digit(d: nat) -> char {
    if d == 0 {
        '0'
    } else if d == 1 {
        '1'
    } else if d == 2 {
        '2'
    } else if d == 3 {
        '3'
    } else if d == 4 {
        '4'
    } else if d == 5 {
        '5'
    } else if d == 6 {
        '6'
    } else if d == 7 {
        '7'
    } else if d == 8 {
        '8'
    } else {
        '9'
    }
}

/// The decimal digits of a number, most significant first.
pub open spec fn dec_chars(n: nat) -> Seq<char>
    decreases n,
{
    if n < 10 {
        seq![dec_digit(n)]
    } else {
        dec_chars(n / 10).push(dec_digit(n % 10))
    }
}

/// Appends a number's decimal digits.
fn push_decimal(out: &mut String, n: usize)
    ensures
        final(out)@ == old(out)@ + dec_chars(n as nat),
    decreases n,
{
    if n >= 10 {
        proof {
            assert(n / 10 < n) by (nonlinear_arith)
                requires
                    n >= 10,
            ;
        }
        push_decimal(out, n / 10);
    }
    let ghost pre = out@;
    let d: usize = n % 10;
    proof {
        reveal_strlit("0");
        reveal_strlit("1");
        reveal_strlit("2");
        reveal_strlit("3");
        reveal_strlit("4");
        reveal_strlit("5");
        reveal_strlit("6");
        reveal_strlit("7");
        reveal_strlit("8");
        reveal_strlit("9");
    }
    if d == 0 {
        out.append("0");
        proof {
            assert(("0")@ =~= seq![dec_digit(d as nat)]);
        }
    } else if d == 1 {
        out.append("1");
        proof {
            assert(("1")@ =~= seq![dec_digit(d as nat)]);
        }
    } else if d == 2 {
        out.append("2");
        proof {
            assert(("2")@ =~= seq![dec_digit(d as nat)]);
        }
    } else if d == 3 {
        out.append("3");
        proof {
            assert(("3")@ =~= seq![dec_digit(d as nat)]);
        }
    } else if d == 4 {
        out.append("4");
        proof {
            assert(("4")@ =~= seq![dec_digit(d as nat)]);
        }
    } else if d == 5 {
        out.append("5");
        proof {
            assert(("5")@ =~= seq![dec_digit(d as nat)]);
        }
    } else if d == 6 {
        out.append("6");
        proof {
            assert(("6")@ =~= seq![dec_digit(d as nat)]);
        }
    } else if d == 7 {
        out.append("7");
        proof {
            assert(("7")@ =~= seq![dec_digit(d as nat)]);
        }
    } else if d == 8 {
        out.append("8");
        proof {
            assert(("8")@ =~= seq![dec_digit(d as nat)]);
        }
    } else {
        out.append("9");
        proof {
            assert(d == 9);
            assert(("9")@ =~= seq![dec_digit(d as nat)]);
        }
    }
    proof {
        if n < 10 {
            assert(out@ =~= old(out)@ + dec_chars(n as nat));
        } else {
            assert(pre == old(out)@ + dec_chars((n / 10) as nat));
            assert(out@ =~= old(out)@ + dec_chars(n as nat));
        }
    }
}

impl Location {
    /// The line this location points at.
    pub fn line(&self) -> (r: usize)
        ensures
            r == self.line,
    {
        self.line
    }

    /// The diagnostic text of this location: the file, a colon, the line.
    pub fn to_text(&self) -> (r: String)
        ensures
            r@ == self.file@ + ":"@ + dec_chars(self.line as nat),
    {
        let mut r = self.file.clone();
        r.append(":");
        push_decimal(&mut r, self.line);
        r
    }
}

/// Storage class of a static declaration.
pub enum Storage {
    Static,
    ThreadLocal,
    Atomic,
}

/// Visibility of a declaration or an import.
#[derive(PartialEq, Eq, Structural, Clone, Copy)]
pub enum Visibility {
    Shared,
    Object,
    Export,
}

/// An import of another namespace under a visibility.
pub struct Import {
    pub namespace: Vec<String>,
    pub vis: Visibility,
    pub loc: Location,
}

/// A use of a type by name.
pub struct TypeUse {
    pub name: String,
    pub loc: Location,
}

/// An opaque expression, kept as source text.
pub struct CExpr {
    pub expr: String,
    pub loc: Location,
}

/// An anonymous (return) argument.
pub struct AnonArg {
    pub typeref: TypeUse,
}

/// A named, typed function argument.
pub struct NamedArg {
    pub typeref: TypeUse,
    pub name: String,
    pub muta: bool,
    pub ptr: bool,
    pub namespace: Option<String>,
}

/// One struct field.
pub struct Field {
    pub typeref: TypeUse,
    pub expr: CExpr,
    pub loc: Location,
}

/// The definition carried by a top-level declaration.
#[allow(inconsistent_fields)]
pub enum Def {
    Static { typeref: TypeUse, expr: CExpr, muta: bool, storage: Storage },
    Const { typeref: TypeUse, expr: CExpr },
    Function { ret: Option<AnonArg>, args: Vec<NamedArg>, body: CExpr },
    Struct { fields: Vec<Field>, packed: bool },
    Macro { args: Vec<String>, body: CExpr, imports: Vec<Import> },
}

/// A top-level declaration of a module.
pub struct Local {
    pub name: String,
    pub vis: Visibility,
    pub loc: Location,
    pub def: Def,
}

/// A raw include directive.
pub struct Include {
    pub expr: String,
    pub loc: Location,
}

/// A parsed source module: its namespace, its primary source file, its
/// declarations, and the set of all files that contributed to it (the
/// staleness check reads that set).
pub struct Module {
    pub name: Name,
    pub source: String,
    pub locals: Vec<Local>,
    pub includes: Vec<Include>,
    pub imports: Vec<Import>,
    pub sources: Vec<String>,
}

/// Whether a declaration defines a compile-time macro.
pub open spec fn is_macro_local(l: Local) -> bool {
    l.def is Macro
}

} // verus!
