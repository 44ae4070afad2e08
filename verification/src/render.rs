//! The text of the scope tables.
use crate::ast::{params_view, Param, ParamView};
use crate::semantic::{ScopeRecord, ScopeRecordView};
use crate::symbols::{Symbol, SymbolView};
use vstd::prelude::*;
use vstd::string::StringExecFns;

verus! {

/// The character that writes a decimal digit.
pub open spec fn digit_char(d: nat) -> char {
    if d == 0 {
        '0'
    } else if d == 1 {
        '1'
    } else if d == 2 {
        '2'
    } else if d == 3 {
        '3'
    } else if d == 4 {
        '4'
    } else if d == 5 {
        '5'
    } else if d == 6 {
        '6'
    } else if d == 7 {
        '7'
    } else if d == 8 {
        '8'
    } else {
        '9'
    }
}

/// A number written in decimal, without leading zeros.
pub open spec fn decimal_text(n: nat) -> Seq<char>
    decreases n,
{
    if n < 10 {
        seq![digit_char(n)]
    } else {
        decimal_text(n / 10).push(digit_char(n % 10))
    }
}

/// A parameter as the scope table shows it.
pub open spec fn param_text(p: ParamView) -> Seq<char> {
    "name='"@ + p.id + "', type='"@ + p.ttype.spec_name() + "'"@
}

/// The parameters from the `i`-th on, separated by a comma and a space.
pub open spec fn params_text(ps: Seq<ParamView>, i: int) -> Seq<char>
    decreases ps.len() - i,
{
    if i < 0 || i >= ps.len() {
        Seq::empty()
    } else if i == ps.len() - 1 {
        param_text(ps[i])
    } else {
        param_text(ps[i]) + ", "@ + params_text(ps, i + 1)
    }
}

/// A symbol as the scope table shows it.
pub open spec fn symbol_text(s: SymbolView) -> Seq<char> {
    match s {
        SymbolView::BuiltIn { name } => "<BuiltIn(name='"@ + name + "')>"@,
        SymbolView::Var { name, kind } => "<Var(name='"@ + name + "', type='"@ + kind.spec_name()
            + "')>"@,
        SymbolView::Procedure { name, params } => "<Procedural(name='"@ + name
            + "', parameters=["@ + params_text(params, 0) + "])>"@,
    }
}

/// The lines of the scope table for the entries from the `i`-th on: the name,
/// ` = `, the symbol, and a line feed.
pub open spec fn entries_text(entries: Seq<(Seq<char>, SymbolView)>, i: int) -> Seq<char>
    decreases entries.len() - i,
{
    if i < 0 || i >= entries.len() {
        Seq::empty()
    } else {
        entries[i].0 + " = "@ + symbol_text(entries[i].1) + "\n"@ + entries_text(entries, i + 1)
    }
}

/// The heading of a scope table.
pub open spec fn heading_text(name: Seq<char>, level: nat, enclosing_name: Seq<char>) -> Seq<
    char,
> {
    "\nSCOPE (SCOPED SYMBOL TABLE)\n===========================\nScope name: "@ + name
        + "\nScope level: "@ + decimal_text(level) + "\nEnclosing scope: "@ + enclosing_name
        + "\n\nScope (Scoped symbol table) contents\n------------------------------------\n"@
}

/// The scope table of a scope that the analysis has left: the heading, and
/// the symbols in ascending order of their names. The root scope, which is
/// named `None`, shows as its name alone.
pub open spec fn record_text(
    record: ScopeRecordView,
    entries: Seq<(Seq<char>, SymbolView)>,
) -> Seq<char> {
    if record.scope.name == "None"@ {
        "None"@
    } else {
        heading_text(record.scope.name, record.scope.level, record.enclosing_name) + entries_text(
            entries,
            0,
        )
    }
}

fn digit_to_char(d: usize) -> (c: char)
    requires
        d < 10,
    ensures
        c == digit_char(d as nat),
{
    if d == 0 {
        '0'
    } else if d == 1 {
        '1'
    } else if d == 2 {
        '2'
    } else if d == 3 {
        '3'
    } else if d == 4 {
        '4'
    } else if d == 5 {
        '5'
    } else if d == 6 {
        '6'
    } else if d == 7 {
        '7'
    } else if d == 8 {
        '8'
    } else {
        '9'
    }
}

/// Writes a number in decimal at the end of `out`.
pub fn write_decimal(out: &mut String, n: usize)
    ensures
        final(out)@ == old(out)@ + decimal_text(n as nat),
    decreases n,
{
    if n >= 10 {
        write_decimal(out, n / 10);
    }
    out.push(digit_to_char(n % 10));
    proof {
        let head = old(out)@;
        if n >= 10 {
            assert(final(out)@ =~= head + decimal_text(n as nat));
        } else {
            assert(final(out)@ =~= head + decimal_text(n as nat));
        }
    }
}

/// Writes a parameter at the end of `out`.
pub fn write_param(out: &mut String, p: &Param)
    ensures
        final(out)@ == old(out)@ + param_text(p@),
{
    out.append("name='");
    out.append(p.id.as_str());
    out.append("', type='");
    out.append(p.ttype.name().as_str());
    out.append("'");
    proof {
        assert(final(out)@ =~= old(out)@ + param_text(p@));
    }
}

/// Writes a symbol at the end of `out`.
pub fn write_symbol(out: &mut String, symbol: &Symbol)
    ensures
        final(out)@ == old(out)@ + symbol_text(symbol@),
{
    match symbol {
        Symbol::BuiltIn { name } => {
            out.append("<BuiltIn(name='");
            out.append(name.as_str());
            out.append("')>");
            proof {
                assert(final(out)@ =~= old(out)@ + symbol_text(symbol@));
            }
        },
        Symbol::Var { name, kind } => {
            out.append("<Var(name='");
            out.append(name.as_str());
            out.append("', type='");
            out.append(kind.name().as_str());
            out.append("')>");
            proof {
                assert(final(out)@ =~= old(out)@ + symbol_text(symbol@));
            }
        },
        Symbol::Procedure { name, params } => {
            out.append("<Procedural(name='");
            out.append(name.as_str());
            out.append("', parameters=[");
            let ghost head = out@;
            let ghost views = params_view(params@);
            let mut i: usize = 0;
            while i < params.len()
                invariant
                    i <= params.len(),
                    views == params_view(params@),
                    out@ + params_text(views, i as int) == head + params_text(views, 0),
                decreases params.len() - i,
            {
                let ghost before = out@;
                write_param(out, &params[i]);
                if i + 1 < params.len() {
                    out.append(", ");
                }
                proof {
                    assert(views[i as int] == params@[i as int]@);
                    assert(out@ + params_text(views, i + 1) =~= before + params_text(
                        views,
                        i as int,
                    ));
                }
                i += 1;
            }
            out.append("])>");
            proof {
                assert(final(out)@ =~= old(out)@ + symbol_text(symbol@));
            }
        },
    }
}

/// The symbol as the scope table shows it.
pub fn describe_symbol(symbol: &Symbol) -> (r: String)
    ensures
        r@ == symbol_text(symbol@),
{
    let mut out = String::new();
    write_symbol(&mut out, symbol);
    proof {
        assert(out@ =~= symbol_text(symbol@));
    }
    out
}

/// The scope table of a scope that the analysis has left.
pub fn describe_scope(record: &ScopeRecord) -> (r: String)
    ensures
        r@ == record_text(record@, record.scope.listing()),
{
    let mut out = String::new();
    match crate::names::rank(record.scope.scope_name().as_str(), "None") {
        crate::names::Rank::Same => {
            out.append("None");
            proof {
                assert(out@ =~= "None"@);
            }
            return out;
        },
        _ => {},
    }
    out.append("\nSCOPE (SCOPED SYMBOL TABLE)\n===========================\nScope name: ");
    out.append(record.scope.scope_name().as_str());
    out.append("\nScope level: ");
    write_decimal(&mut out, record.scope.scope_level());
    out.append("\nEnclosing scope: ");
    out.append(record.enclosing_name.as_str());
    out.append(
        "\n\nScope (Scoped symbol table) contents\n------------------------------------\n",
    );
    let ghost entries = record.scope.listing();
    let ghost head = out@;
    proof {
        assert(head =~= heading_text(
            record@.scope.name,
            record@.scope.level,
            record@.enclosing_name,
        ));
    }
    let n = record.scope.symbol_count();
    let mut i: usize = 0;
    while i < n
        invariant
            i <= n,
            n == entries.len(),
            entries == record.scope.listing(),
            out@ + entries_text(entries, i as int) == head + entries_text(entries, 0),
        decreases n - i,
    {
        let ghost before = out@;
        out.append(record.scope.symbol_name_at(i).as_str());
        out.append(" = ");
        write_symbol(&mut out, record.scope.symbol_at(i));
        out.append("\n");
        proof {
            assert(out@ + entries_text(entries, i + 1) =~= before + entries_text(
                entries,
                i as int,
            ));
        }
        i += 1;
    }
    proof {
        assert(out@ =~= head + entries_text(entries, 0));
    }
    out
}

} // verus!
