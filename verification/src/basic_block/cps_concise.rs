//! The concise form of destination-driven lowering in continuation-passing
//! order. It lowers exactly as `cps_ddcg` does, and shares its code.

use vstd::prelude::*;
use super::ast;
use super::ssa;
use super::cps_ddcg;

verus! {

/// Lowers `program` to SSA with destination policies: an operation stores into
/// its destination, an immediate is handed on without a copy unless a `let`
/// requires one.
pub fn lower(program: &ast::Program) -> (res: ssa::Program)
    requires
        ast::well_formed(program.body),
        2 * ast::size(program.body) < usize::MAX,
    ensures
        res.param@ == program.parameter@,
        res.entry@ == cps_ddcg::lowered(*program),
{
    cps_ddcg::lower(program)
}

/// Lowering keeps the meaning of a program whose `let`s bind distinct names,
/// none of them the parameter: on every input, the lowered program returns
/// what the source program computes. Source identifiers never start with `%`.
pub proof fn lemma_lower_preserves_value(p: ast::Program, x: int)
    requires
        ast::well_formed(p.body),
        ast::scoped(set![p.parameter@], p.body),
        ast::unique_binders(p.body),
        !ast::binders(p.body).contains(p.parameter@),
        cps_ddcg::source_name(p.parameter@),
        forall|b: Seq<char>| #[trigger] ast::binders(p.body).contains(b) ==> cps_ddcg::source_name(b),
    ensures
        ssa::program_value(p.parameter@, cps_ddcg::lowered(p), x) == ast::program_value(p, x),
{
    cps_ddcg::lemma_lower_preserves_value(p, x);
}

/// Every name the lowered program assigns is assigned once, and none is the
/// parameter, when the `let`s bind distinct source names other than it.
pub proof fn lemma_lower_single_assignment(p: ast::Program)
    requires
        ast::unique_binders(p.body),
        !ast::binders(p.body).contains(p.parameter@),
        cps_ddcg::source_name(p.parameter@),
        forall|b: Seq<char>| #[trigger] ast::binders(p.body).contains(b) ==> cps_ddcg::source_name(b),
    ensures
        ssa::block_dests(cps_ddcg::lowered(p)).no_duplicates(),
        !ssa::block_dests(cps_ddcg::lowered(p)).contains(p.parameter@),
{
    cps_ddcg::lemma_lower_single_assignment(p);
}

} // verus!
