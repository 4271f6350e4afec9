//! Semantic checks on a parsed program: field types are known, field names
//! are unique within a domain, and goals and transitions only name declared
//! state.

use vstd::prelude::*;
use crate::ast::{
    Ast, BlockView, DomainDecl, Expr, ExprView, FieldView, GoalView, Statement, StatementView,
    exprs_view_seq, lemma_exprs_view_index, fields_view, goals_view, transitions_view,
};
use crate::strmap::StrMap;
use crate::text::{join3, join5, join7, string_is};

verus! {

#[derive(Debug, Clone, PartialEq)]
pub enum VedType {
    Int,
    String,
    Bool,
    Unknown(String),
}

#[derive(Debug)]
pub struct SemanticError {
    pub message: String,
}

struct DomainInfo {
    state_fields: StrMap<VedType>,
}

pub struct SemanticValidator {
    domains: StrMap<DomainInfo>,
}

/// The views of a list of errors: their messages.
pub open spec fn errors_view(s: Seq<SemanticError>) -> Seq<Seq<char>> {
    s.map_values(|e: SemanticError| e.message@)
}

impl View for SemanticValidator {
    /// For each domain checked so far, the names of its state fields.
    type V = Map<Seq<char>, Set<Seq<char>>>;

    closed spec fn view(&self) -> Map<Seq<char>, Set<Seq<char>>> {
        Map::new(
            |k: Seq<char>| self.domains.content().contains_key(k),
            |k: Seq<char>| self.domains.content()[k].state_fields.content().dom(),
        )
    }
}

pub open spec fn known_type(t: Seq<char>) -> bool {
    t == "int"@ || t == "string"@ || t == "bool"@
}

pub open spec fn unknown_type_message(d: Seq<char>, t: Seq<char>, f: Seq<char>) -> Seq<char> {
    "Domain '"@ + d + "': Unknown type '"@ + t + "' for field '"@ + f + "'"@
}

pub open spec fn duplicate_field_message(d: Seq<char>, f: Seq<char>) -> Seq<char> {
    "Domain '"@ + d + "': Duplicate state field '"@ + f + "'"@
}

pub open spec fn undefined_reference_message(d: Seq<char>, n: Seq<char>) -> Seq<char> {
    "Domain '"@ + d + "': Reference to undefined state variable '"@ + n + "'"@
}

pub open spec fn undefined_assignment_message(d: Seq<char>, n: Seq<char>) -> Seq<char> {
    "Domain '"@ + d + "': Cannot assign to undefined state variable '"@ + n + "'"@
}

/// Checks the fields of domain `d` from index `i`, given the names already
/// seen and the errors so far; gives the names declared and the errors.
pub open spec fn check_fields(d: Seq<char>, fs: Seq<FieldView>, i: int, seen: Set<Seq<char>>, errs: Seq<Seq<char>>) -> (Set<Seq<char>>, Seq<Seq<char>>)
    decreases fs.len() - i,
{
    if i < 0 || i >= fs.len() {
        (seen, errs)
    } else {
        let name = fs[i].0;
        let typ = fs[i].1;
        let e1 = if known_type(typ) { errs } else { errs.push(unknown_type_message(d, typ, name)) };
        if seen.contains(name) {
            check_fields(d, fs, i + 1, seen, e1.push(duplicate_field_message(d, name)))
        } else {
            check_fields(d, fs, i + 1, seen.insert(name), e1)
        }
    }
}

/// The first pass from statement `i`: records each domain's field names
/// (a later domain of the same name replaces an earlier one) and collects
/// the field errors.
pub open spec fn catalog(st: Seq<StatementView>, i: int, doms: Map<Seq<char>, Set<Seq<char>>>, errs: Seq<Seq<char>>) -> (Map<Seq<char>, Set<Seq<char>>>, Seq<Seq<char>>)
    decreases st.len() - i,
{
    if i < 0 || i >= st.len() {
        (doms, errs)
    } else {
        match st[i] {
            StatementView::DomainDecl(d) => {
                let (seen, e) = check_fields(d.name, d.state, 0, Set::empty(), errs);
                catalog(st, i + 1, doms.insert(d.name, seen), e)
            },
            StatementView::SystemDecl(_) => catalog(st, i + 1, doms, errs),
        }
    }
}

/// The errors of an expression of domain `d` whose fields are `fields`.
pub open spec fn expr_errors(d: Seq<char>, fields: Set<Seq<char>>, e: ExprView) -> Seq<Seq<char>>
    decreases e, 0nat,
{
    match e {
        ExprView::Ident(n) => if fields.contains(n) { Seq::empty() } else { seq![undefined_reference_message(d, n)] },
        ExprView::Assignment { target, value } => (if fields.contains(target) {
            Seq::empty()
        } else {
            seq![undefined_assignment_message(d, target)]
        }) + expr_errors(d, fields, *value),
        ExprView::BinaryOp { left, right, .. } => expr_errors(d, fields, *left) + expr_errors(d, fields, *right),
        ExprView::If { condition, consequence } => expr_errors(d, fields, *condition) + list_errors(d, fields, consequence),
        _ => Seq::empty(),
    }
}

/// The errors of a sequence of expressions, in order.
pub open spec fn list_errors(d: Seq<char>, fields: Set<Seq<char>>, s: Seq<ExprView>) -> Seq<Seq<char>>
    decreases s, s.len(),
{
    if s.len() == 0 {
        Seq::empty()
    } else {
        list_errors(d, fields, s.subrange(0, s.len() - 1)) + expr_errors(d, fields, s[s.len() - 1])
    }
}

/// The errors of the goals of a domain, in order.
pub open spec fn goals_errors(d: Seq<char>, fields: Set<Seq<char>>, gs: Seq<GoalView>) -> Seq<Seq<char>>
    decreases gs.len(),
{
    if gs.len() == 0 {
        Seq::empty()
    } else {
        goals_errors(d, fields, gs.drop_last()) + expr_errors(d, fields, gs.last().1)
    }
}

/// The errors of the transitions of a domain, in order.
pub open spec fn transitions_errors(d: Seq<char>, fields: Set<Seq<char>>, ts: Seq<BlockView>) -> Seq<Seq<char>>
    decreases ts.len(),
{
    if ts.len() == 0 {
        Seq::empty()
    } else {
        transitions_errors(d, fields, ts.drop_last()) + list_errors(d, fields, ts.last().1)
    }
}

/// The second pass from statement `i`: checks goals and transitions against
/// the fields recorded for the domain's name.
pub open spec fn check_bodies(st: Seq<StatementView>, i: int, doms: Map<Seq<char>, Set<Seq<char>>>, errs: Seq<Seq<char>>) -> Seq<Seq<char>>
    decreases st.len() - i,
{
    if i < 0 || i >= st.len() {
        errs
    } else {
        match st[i] {
            StatementView::DomainDecl(d) => {
                let fields = doms[d.name];
                check_bodies(st, i + 1, doms, errs + goals_errors(d.name, fields, d.goals) + transitions_errors(d.name, fields, d.transitions))
            },
            StatementView::SystemDecl(_) => check_bodies(st, i + 1, doms, errs),
        }
    }
}

/// Validating `st` with a validator that knows `doms`: the domains known
/// afterwards and the errors found, in order.
pub open spec fn validation(doms: Map<Seq<char>, Set<Seq<char>>>, st: Seq<StatementView>) -> (Map<Seq<char>, Set<Seq<char>>>, Seq<Seq<char>>) {
    let (d2, e1) = catalog(st, 0, doms, Seq::empty());
    (d2, check_bodies(st, 0, d2, e1))
}

proof fn lemma_catalog_keeps(st: Seq<StatementView>, i: int, doms: Map<Seq<char>, Set<Seq<char>>>, errs: Seq<Seq<char>>)
    requires
        0 <= i <= st.len(),
    ensures
        forall|k: Seq<char>| doms.contains_key(k) ==> #[trigger] catalog(st, i, doms, errs).0.contains_key(k),
        forall|j: int| #![trigger st[j]] i <= j < st.len() && st[j] is DomainDecl ==> catalog(st, i, doms, errs).0.contains_key(st[j]->DomainDecl_0.name),
    decreases st.len() - i,
{
    if i < st.len() {
        match st[i] {
            StatementView::DomainDecl(d) => {
                let (seen, e) = check_fields(d.name, d.state, 0, Set::empty(), errs);
                let doms2 = doms.insert(d.name, seen);
                assert(catalog(st, i, doms, errs) == catalog(st, i + 1, doms2, e));
                lemma_catalog_keeps(st, i + 1, doms2, e);
                assert forall|k: Seq<char>| doms.contains_key(k) implies #[trigger] catalog(st, i, doms, errs).0.contains_key(k) by {
                    assert(doms2.contains_key(k));
                }
                assert forall|j: int| #![trigger st[j]] i <= j < st.len() && st[j] is DomainDecl implies catalog(st, i, doms, errs).0.contains_key(st[j]->DomainDecl_0.name) by {
                    if j == i {
                        assert(doms2.contains_key(d.name));
                    }
                }
            },
            StatementView::SystemDecl(_) => {
                assert(catalog(st, i, doms, errs) == catalog(st, i + 1, doms, errs));
                lemma_catalog_keeps(st, i + 1, doms, errs);
            },
        }
    } else {
        assert(catalog(st, i, doms, errs) == (doms, errs));
    }
}

proof fn lemma_list_errors_push(d: Seq<char>, fields: Set<Seq<char>>, s: Seq<ExprView>, e: ExprView)
    ensures
        list_errors(d, fields, s.push(e)) == list_errors(d, fields, s) + expr_errors(d, fields, e),
{
    assert(s.push(e).subrange(0, s.len() as int) =~= s);
}

impl SemanticValidator {
    /// A validator that knows no domains yet.
    pub fn new() -> (v: Self)
        ensures
            v@ == Map::<Seq<char>, Set<Seq<char>>>::empty(),
    {
        let v = SemanticValidator { domains: StrMap::new() };
        assert(v@ =~= Map::<Seq<char>, Set<Seq<char>>>::empty());
        v
    }

    /// Checks `ast`: first each domain's fields (unknown types, duplicate
    /// names), then its goals and transitions against the fields recorded
    /// for its name. The error messages come in the order of `validation`;
    /// `Ok` exactly when there are none.
    pub fn validate(&mut self, ast: &Ast) -> (r: Result<(), Vec<SemanticError>>)
        ensures
            final(self)@ == validation(old(self)@, ast@).0,
            validation(old(self)@, ast@).1.len() == 0 ==> r is Ok,
            validation(old(self)@, ast@).1.len() != 0 ==> (r matches Err(v) && errors_view(v@) == validation(old(self)@, ast@).1),
    {
        let ghost st = ast@;
        let ghost total1 = catalog(st, 0, self@, Seq::empty());
        let ghost start_doms = self@;
        let mut errors: Vec<SemanticError> = Vec::new();
        assert(errors_view(errors@) =~= Seq::empty());
        let mut i: usize = 0;
        while i < ast.statements.len()
            invariant
                st == ast@,
                i <= ast.statements.len(),
                total1 == catalog(st, 0, start_doms, Seq::empty()),
                start_doms == old(self)@,
                catalog(st, i as int, self@, errors_view(errors@)) == total1,
            decreases ast.statements.len() - i,
        {
            match &ast.statements[i] {
                Statement::DomainDecl(domain) => {
                    assert(st[i as int] == StatementView::DomainDecl(domain@));
                    let ghost before = self@;
                    let ghost errs_before = errors_view(errors@);
                    let fields = self.catalog_domain(domain, &mut errors);
                    let ghost seen = fields.state_fields.content().dom();
                    self.domains.insert(domain.name.clone(), fields);
                    assert(self@ =~= before.insert(domain.name@, seen));
                },
                Statement::SystemDecl(_) => {},
            }
            i = i + 1;
        }
        let ghost doms = self@;
        proof {
            lemma_catalog_keeps(st, 0, start_doms, Seq::empty());
        }
        let ghost total2 = check_bodies(st, 0, doms, errors_view(errors@));
        let mut i: usize = 0;
        while i < ast.statements.len()
            invariant
                st == ast@,
                i <= ast.statements.len(),
                doms == self@,
                doms == total1.0,
                total1 == catalog(st, 0, old(self)@, Seq::empty()),
                forall|j: int| #![trigger st[j]] 0 <= j < st.len() && st[j] is DomainDecl ==> doms.contains_key(st[j]->DomainDecl_0.name),
                check_bodies(st, i as int, doms, errors_view(errors@)) == total2,
                total2 == validation(old(self)@, st).1,
            decreases ast.statements.len() - i,
        {
            match &ast.statements[i] {
                Statement::DomainDecl(domain) => {
                    assert(st[i as int] == StatementView::DomainDecl(domain@));
                    self.check_domain(domain, &mut errors);
                },
                Statement::SystemDecl(_) => {},
            }
            i = i + 1;
        }
        if errors.len() == 0 {
            Ok(())
        } else {
            Err(errors)
        }
    }

    /// The first pass over one domain: its field table, with the field
    /// errors appended to `errors`.
    fn catalog_domain(&self, domain: &DomainDecl, errors: &mut Vec<SemanticError>) -> (info: DomainInfo)
        ensures
            (info.state_fields.content().dom(), errors_view(final(errors)@))
                == check_fields(domain.name@, fields_view(domain.state@), 0, Set::empty(), errors_view(old(errors)@)),
    {
        let ghost fs = fields_view(domain.state@);
        let ghost total = check_fields(domain.name@, fs, 0, Set::empty(), errors_view(errors@));
        let mut state_fields: StrMap<VedType> = StrMap::new();
        assert(state_fields.content().dom() =~= Set::empty());
        let mut j: usize = 0;
        while j < domain.state.len()
            invariant
                j <= domain.state.len(),
                fs == fields_view(domain.state@),
                check_fields(domain.name@, fs, j as int, state_fields.content().dom(), errors_view(errors@)) == total,
            decreases domain.state.len() - j,
        {
            let field = &domain.state[j];
            let v_type = if string_is(&field.typ, "int") {
                VedType::Int
            } else if string_is(&field.typ, "string") {
                VedType::String
            } else if string_is(&field.typ, "bool") {
                VedType::Bool
            } else {
                VedType::Unknown(field.typ.clone())
            };
            match &v_type {
                VedType::Unknown(t) => {
                    let m = join7("Domain '", domain.name.as_str(), "': Unknown type '", t.as_str(), "' for field '", field.name.as_str(), "'");
                    let ghost eb = errors@;
                    let err = SemanticError { message: m };
                    errors.push(err);
                    assert(errors_view(errors@) =~= errors_view(eb).push(err.message@));
                },
                _ => {},
            }
            if state_fields.contains_key(field.name.as_str()) {
                let m = join5("Domain '", domain.name.as_str(), "': Duplicate state field '", field.name.as_str(), "'");
                let ghost eb = errors@;
                let err = SemanticError { message: m };
                errors.push(err);
                assert(errors_view(errors@) =~= errors_view(eb).push(err.message@));
            } else {
                let ghost before = state_fields.content();
                state_fields.insert(field.name.clone(), v_type);
                assert(state_fields.content().dom() =~= before.dom().insert(field.name@));
            }
            j = j + 1;
        }
        DomainInfo { state_fields }
    }

    /// The second pass over one domain.
    fn check_domain(&self, domain: &DomainDecl, errors: &mut Vec<SemanticError>)
        requires
            self@.contains_key(domain.name@),
        ensures
            errors_view(final(errors)@) == errors_view(old(errors)@) + goals_errors(domain.name@, self@[domain.name@], goals_view(domain.goals@))
                + transitions_errors(domain.name@, self@[domain.name@], transitions_view(domain.transitions@)),
    {
        let info = match self.domains.get(domain.name.as_str()) {
            Some(info) => info,
            None => {
                return;
            },
        };
        let ghost fields = self@[domain.name@];
        assert(fields == info.state_fields.content().dom());
        let ghost e0 = errors_view(errors@);
        let mut k: usize = 0;
        while k < domain.goals.len()
            invariant
                k <= domain.goals.len(),
                fields == info.state_fields.content().dom(),
                errors_view(errors@) == e0 + goals_errors(domain.name@, fields, goals_view(domain.goals@).subrange(0, k as int)),
            decreases domain.goals.len() - k,
        {
            assert(goals_view(domain.goals@).subrange(0, k + 1).drop_last() =~= goals_view(domain.goals@).subrange(0, k as int));
            self.validate_expr(domain.name.as_str(), &domain.goals[k].target, info, errors);
            k = k + 1;
        }
        assert(goals_view(domain.goals@).subrange(0, k as int) =~= goals_view(domain.goals@));
        let ghost e1 = errors_view(errors@);
        let mut k: usize = 0;
        while k < domain.transitions.len()
            invariant
                k <= domain.transitions.len(),
                fields == info.state_fields.content().dom(),
                errors_view(errors@) == e1 + transitions_errors(domain.name@, fields, transitions_view(domain.transitions@).subrange(0, k as int)),
            decreases domain.transitions.len() - k,
        {
            let trans = &domain.transitions[k];
            assert(transitions_view(domain.transitions@).subrange(0, k + 1).drop_last() =~= transitions_view(domain.transitions@).subrange(0, k as int));
            let ghost ek = errors_view(errors@);
            let mut m: usize = 0;
            proof { lemma_exprs_view_index(trans.slice_step@); }
            while m < trans.slice_step.len()
                invariant
                    m <= trans.slice_step.len(),
                    fields == info.state_fields.content().dom(),
                    exprs_view_seq(trans.slice_step@).len() == trans.slice_step.len(),
                    forall|t: int| 0 <= t < trans.slice_step.len() ==> #[trigger] exprs_view_seq(trans.slice_step@)[t] == trans.slice_step@[t]@,
                    errors_view(errors@) == ek + list_errors(domain.name@, fields, exprs_view_seq(trans.slice_step@).subrange(0, m as int)),
                decreases trans.slice_step.len() - m,
            {
                proof {
                    let v = exprs_view_seq(trans.slice_step@);
                    assert(v.subrange(0, m + 1) =~= v.subrange(0, m as int).push(v[m as int]));
                    lemma_list_errors_push(domain.name@, fields, v.subrange(0, m as int), v[m as int]);
                }
                self.validate_expr(domain.name.as_str(), &trans.slice_step[m], info, errors);
                m = m + 1;
            }
            assert(exprs_view_seq(trans.slice_step@).subrange(0, m as int) =~= exprs_view_seq(trans.slice_step@));
            k = k + 1;
        }
        assert(transitions_view(domain.transitions@).subrange(0, k as int) =~= transitions_view(domain.transitions@));
    }

    /// Appends the errors of `expr` to `errors`.
    fn validate_expr(&self, domain_name: &str, expr: &Expr, info: &DomainInfo, errors: &mut Vec<SemanticError>)
        ensures
            errors_view(final(errors)@) == errors_view(old(errors)@) + expr_errors(domain_name@, info.state_fields.content().dom(), expr@),
        decreases expr,
    {
        let ghost fields = info.state_fields.content().dom();
        match expr {
            Expr::Ident(name) => {
                if !info.state_fields.contains_key(name.as_str()) {
                    let m = join5("Domain '", domain_name, "': Reference to undefined state variable '", name.as_str(), "'");
                    let ghost eb = errors@;
                    let err = SemanticError { message: m };
                    errors.push(err);
                    assert(errors_view(errors@) =~= errors_view(eb) + seq![err.message@]);
                } else {
                    assert(errors_view(errors@) =~= errors_view(errors@) + Seq::<Seq<char>>::empty());
                }
            },
            Expr::Assignment { target, value } => {
                let ghost e0 = errors_view(errors@);
                if !info.state_fields.contains_key(target.as_str()) {
                    let m = join5("Domain '", domain_name, "': Cannot assign to undefined state variable '", target.as_str(), "'");
                    let ghost eb = errors@;
                    let err = SemanticError { message: m };
                    errors.push(err);
                    assert(errors_view(errors@) =~= errors_view(eb) + seq![err.message@]);
                }
                let ghost e1 = errors_view(errors@);
                self.validate_expr(domain_name, value, info, errors);
                assert(errors_view(errors@) =~= e0 + ((if fields.contains(target@) { Seq::empty() } else {
                    seq![undefined_assignment_message(domain_name@, target@)]
                }) + expr_errors(domain_name@, fields, value@)));
            },
            Expr::BinaryOp { left, right, .. } => {
                let ghost e0 = errors_view(errors@);
                self.validate_expr(domain_name, left, info, errors);
                self.validate_expr(domain_name, right, info, errors);
                assert(errors_view(errors@) =~= e0 + (expr_errors(domain_name@, fields, left@) + expr_errors(domain_name@, fields, right@)));
            },
            Expr::If { condition, consequence } => {
                let ghost e0 = errors_view(errors@);
                self.validate_expr(domain_name, condition, info, errors);
                let ghost e1 = errors_view(errors@);
                proof {
                    lemma_exprs_view_index(consequence@);
                    assert(decreases_to!(*expr => *consequence));
                }
                let mut m: usize = 0;
                while m < consequence.len()
                    invariant
                        m <= consequence.len(),
                        fields == info.state_fields.content().dom(),
                        decreases_to!(*expr => *consequence),
                        exprs_view_seq(consequence@).len() == consequence.len(),
                        forall|t: int| 0 <= t < consequence.len() ==> #[trigger] exprs_view_seq(consequence@)[t] == consequence@[t]@,
                        errors_view(errors@) == e1 + list_errors(domain_name@, fields, exprs_view_seq(consequence@).subrange(0, m as int)),
                    decreases consequence.len() - m,
                {
                    proof {
                        let v = exprs_view_seq(consequence@);
                        assert(v.subrange(0, m + 1) =~= v.subrange(0, m as int).push(v[m as int]));
                        lemma_list_errors_push(domain_name@, fields, v.subrange(0, m as int), v[m as int]);
                        assert(decreases_to!(*consequence => consequence@));
                        assert(decreases_to!(consequence@ => consequence@[m as int]));
                    }
                    self.validate_expr(domain_name, &consequence[m], info, errors);
                    m = m + 1;
                }
                assert(exprs_view_seq(consequence@).subrange(0, m as int) =~= exprs_view_seq(consequence@));
                assert(errors_view(errors@) =~= e0 + (expr_errors(domain_name@, fields, condition@) + list_errors(domain_name@, fields, exprs_view_seq(consequence@))));
            },
            _ => {
                assert(errors_view(errors@) =~= errors_view(errors@) + Seq::<Seq<char>>::empty());
            },
        }
    }
}

} // verus!
