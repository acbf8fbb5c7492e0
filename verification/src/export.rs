use vstd::prelude::*;

verus! {

/// One token of the export attribute's argument list.
pub enum ExportArg {
    /// An identifier, such as `V1` or `C`.
    Ident(String),
    /// Any other token.
    Other,
}

/// Why a function cannot be exported.
#[derive(Clone, Copy, Debug, PartialEq, Eq, Structural)]
pub enum ExportError {
    /// The argument at this index is an identifier other than `V1` and `C`.
    InvalidOption(usize),
    /// The argument at this index is not an identifier.
    OptionParse(usize),
    /// Not exactly one calling convention was named.
    OptionCount,
    /// The attribute stands on something other than a function.
    NotAFunction,
    /// The function is `const`.
    ConstFn,
    /// The function is `pub`.
    PubFn,
    /// The function is `async`.
    AsyncFn,
    /// The function is variadic.
    VariadicFn,
}

/// What the export attribute stands on.
pub enum ExportItem {
    Function(ExportFn),
    Other,
}

/// The parts of a function's signature that decide whether it can be
/// exported.
pub struct ExportFn {
    pub name: String,
    pub is_const: bool,
    pub is_pub: bool,
    pub is_async: bool,
    pub is_variadic: bool,
}

/// What to emit for an exported function.
pub struct ExportPlan {
    /// Whether the version-1 calling convention record is emitted.
    pub v1: bool,
    /// The symbol under which the panic-catching wrapper is exported: the
    /// function's own name.
    pub export_name: String,
    /// The name of the wrapper function.
    pub handler_name: String,
    /// The symbol of the calling convention record, for `V1`.
    pub finfo_name: Option<String>,
}

/// An argument that names a calling convention.
pub open spec fn arg_ok(a: ExportArg) -> bool {
    a matches ExportArg::Ident(s) && (s@ == "V1"@ || s@ == "C"@)
}

/// The index of the first argument that names no calling convention.
pub open spec fn first_bad_arg(args: Seq<ExportArg>) -> Option<int>
    decreases args.len(),
{
    if args.len() == 0 {
        None
    } else if !arg_ok(args[0]) {
        Some(0)
    } else {
        match first_bad_arg(args.drop_first()) {
            Some(i) => Some(i + 1),
            None => None,
        }
    }
}

/// The calling convention that the attribute's arguments ask for (`true`
/// for `V1`, `false` for plain `C`). The first argument that is not `V1`
/// or `C` is refused; then anything but exactly one argument is refused.
pub open spec fn convention_of(args: Seq<ExportArg>) -> Result<bool, ExportError> {
    match first_bad_arg(args) {
        Some(i) => if args[i] is Ident {
            Err(ExportError::InvalidOption(i as usize))
        } else {
            Err(ExportError::OptionParse(i as usize))
        },
        None => if args.len() != 1 {
            Err(ExportError::OptionCount)
        } else {
            Ok(args[0] matches ExportArg::Ident(s) && s@ == "V1"@)
        },
    }
}

/// Reads the calling convention from the attribute's arguments.
pub fn calling_convention(args: &Vec<ExportArg>) -> (r: Result<bool, ExportError>)
    ensures
        r == convention_of(args@),
{
    let v1_name = String::from_str("V1");
    let c_name = String::from_str("C");
    let n = args.len();
    let mut v1 = false;
    let mut k: usize = 0;
    assert(args@.skip(0) =~= args@);
    while k < n
        invariant
            k <= n,
            n == args@.len(),
            v1_name@ == "V1"@,
            c_name@ == "C"@,
            forall|j: int| 0 <= j < k ==> arg_ok(#[trigger] args@[j]),
            first_bad_arg(args@) == match first_bad_arg(args@.skip(k as int)) {
                Some(i) => Some(i + k),
                None => None::<int>,
            },
            k > 0 ==> (v1 <==> (args@[k - 1] matches ExportArg::Ident(s) && s@ == "V1"@)),
        decreases n - k,
    {
        let ghost rest = args@.skip(k as int);
        assert(rest.drop_first() =~= args@.skip(k as int + 1));
        assert(rest[0] == args@[k as int]);
        match &args[k] {
            ExportArg::Ident(s) => {
                if *s == v1_name {
                    v1 = true;
                } else if *s == c_name {
                    v1 = false;
                } else {
                    return Err(ExportError::InvalidOption(k));
                }
            },
            ExportArg::Other => {
                return Err(ExportError::OptionParse(k));
            },
        }
        k = k + 1;
    }
    assert(args@.skip(n as int).len() == 0);
    if n != 1 {
        return Err(ExportError::OptionCount);
    }
    Ok(v1)
}

/// Checks that `item` is a function that can be exported and names what
/// to emit for it. The checks go in this order: a function, not `const`,
/// not `pub`, not `async`, not variadic. The wrapper is named
/// `rust_panic_handler_<name>` and exported as `<name>`; for `V1` a
/// record `pg_finfo_<name>` is emitted too.
pub fn plan_export(v1: bool, item: &ExportItem) -> (r: Result<ExportPlan, ExportError>)
    ensures
        item is Other ==> r == Err::<ExportPlan, ExportError>(ExportError::NotAFunction),
        item matches ExportItem::Function(f) ==> {
            &&& f.is_const ==> r == Err::<ExportPlan, ExportError>(ExportError::ConstFn)
            &&& (!f.is_const && f.is_pub) ==> r == Err::<ExportPlan, ExportError>(ExportError::PubFn)
            &&& (!f.is_const && !f.is_pub && f.is_async) ==> r == Err::<ExportPlan, ExportError>(ExportError::AsyncFn)
            &&& (!f.is_const && !f.is_pub && !f.is_async && f.is_variadic)
                ==> r == Err::<ExportPlan, ExportError>(ExportError::VariadicFn)
            &&& (!f.is_const && !f.is_pub && !f.is_async && !f.is_variadic) ==> (r matches Ok(p) && {
                &&& p.v1 == v1
                &&& p.export_name@ == f.name@
                &&& p.handler_name@ == "rust_panic_handler_"@ + f.name@
                &&& (v1 ==> (p.finfo_name matches Some(n) && n@ == "pg_finfo_"@ + f.name@))
                &&& (!v1 ==> p.finfo_name is None)
            })
        },
{
    let f = match item {
        ExportItem::Function(f) => f,
        ExportItem::Other => return Err(ExportError::NotAFunction),
    };
    if f.is_const {
        return Err(ExportError::ConstFn);
    }
    if f.is_pub {
        return Err(ExportError::PubFn);
    }
    if f.is_async {
        return Err(ExportError::AsyncFn);
    }
    if f.is_variadic {
        return Err(ExportError::VariadicFn);
    }
    let finfo_name = if v1 {
        Some(String::from_str("pg_finfo_").concat(f.name.as_str()))
    } else {
        None
    };
    Ok(ExportPlan {
        v1,
        export_name: f.name.clone(),
        handler_name: String::from_str("rust_panic_handler_").concat(f.name.as_str()),
        finfo_name,
    })
}

} // verus!
