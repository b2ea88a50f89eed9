//! Passes on whole programs, read from text.

use silica_mir::ast::{
    BasicBlock, Bounds, ConstVal, DeclMeta, Declaration, EnumDecl, EnumVariant, FloatTy, Function,
    FunctionBody, FunctionBodyView, FunctionView, GeneratedKind, GenericParams, HllTemporaryKind,
    ImplBlock, Instance, IntTy, Lifetime, LifetimeParam, Local, Marker, Markers, Operand,
    OutlivesBound, Param, Place, Program, RValue, RefKind, SourceInfo, Span, Statement,
    StatementKind, StructDecl, StructField, Terminator, TerminatorKind, TraitDecl, Type, TypeDecl,
    TypeKind, TypeParam,
};
use silica_mir::block_reachability;
use silica_mir::cfg_edit::split_edge;
use silica_mir::codegen::{lower_mir_to_llvm, try_lower_mir_to_llvm};
use silica_mir::copy_relaxation;
use silica_mir::desugar::lifetime::desugar_program;
use silica_mir::desugar::self_alias::desugar_self_alias;
use silica_mir::diagnostic_format::DiagnosticFormat;
use silica_mir::diagnostics::{DiagCode, Diagnostic, Diagnostics, TypeCheckCode};
use silica_mir::env::IndexedProgram;
use silica_mir::helpers::{
    array_lit_rv, array_ty, bool_const, bool_ty, byte_str_const, const_op, copy_op, custom_ty,
    custom_ty_with_args, deref_place, downcast_place, enum_constr_rv_with_args, field_place,
    float_const, fn_name_const_with_args, fn_ty, i64_ty, index_place, int_const, move_op, never_ty,
    param_ty, raw_ptr_ty, ref_rv, ref_ty, take_op, trivial_markers, unit_const, unit_ty, use_rv,
    var_place,
};
use silica_mir::intrinsics::{all_float_tys, all_int_tys};
use silica_mir::layout::{align_of, layout_of, size_of};
use silica_mir::lifetime::check::{check_program, constraints_for};
use silica_mir::lifetime::desugaring::elide_program;
use silica_mir::lifetime::nll;
use silica_mir::lifetime::region::{build_region_ctx, Region};
use silica_mir::line_diff::{format_line_diff, render_line_diff, split_lines};
use silica_mir::matching::match_impl_header;
use silica_mir::mono::{monomorphize, try_monomorphize, Needs};
use silica_mir::traversal::{BodyPass, DeclarationRef};
use silica_mir::typing::{EnvView, LocalEnv};

// ---------- Reading programs ----------

/// A reader of program text.
struct Reader {
    chars: Vec<char>,
    pos: usize,
    line: u32,
    col: u32,
    type_params: Vec<String>,
}

impl Reader {
    fn new(src: &str) -> Reader {
        Reader {
            chars: src.chars().collect(),
            pos: 0,
            line: 1,
            col: 1,
            type_params: Vec::new(),
        }
    }

    fn bump(&mut self) -> char {
        let c = self.chars[self.pos];
        self.pos += 1;
        if c == '\n' {
            self.line += 1;
            self.col = 1;
        } else {
            self.col += 1;
        }
        c
    }

    fn skip(&mut self) {
        while self.pos < self.chars.len() && self.chars[self.pos].is_whitespace() {
            self.bump();
        }
    }

    fn at(&mut self, text: &str) -> bool {
        self.skip();
        let t: Vec<char> = text.chars().collect();
        self.pos + t.len() <= self.chars.len() && self.chars[self.pos..self.pos + t.len()] == t[..]
    }

    fn eat(&mut self, text: &str) -> bool {
        if !self.at(text) {
            return false;
        }
        for _ in text.chars() {
            self.bump();
        }
        true
    }

    fn expect(&mut self, text: &str) {
        if !self.eat(text) {
            let end = (self.pos + 30).min(self.chars.len());
            let rest: String = self.chars[self.pos..end].iter().collect();
            panic!("expected {:?} at {}:{} before {:?}", text, self.line, self.col, rest);
        }
    }

    fn is_word(c: char) -> bool {
        c.is_alphanumeric() || c == '_' || c == '$'
    }

    fn peek_word(&mut self) -> String {
        self.skip();
        self.chars[self.pos..].iter().take_while(|c| Reader::is_word(**c)).collect()
    }

    fn word(&mut self) -> String {
        let w = self.peek_word();
        if w.is_empty() {
            panic!("expected a name at {}:{}", self.line, self.col);
        }
        for _ in w.chars() {
            self.bump();
        }
        w
    }

    fn at_word(&mut self, text: &str) -> bool {
        self.peek_word() == text
    }

    fn eat_word(&mut self, text: &str) -> bool {
        if self.at_word(text) {
            self.word();
            true
        } else {
            false
        }
    }

    fn mark(&mut self) -> (usize, u32, u32) {
        self.skip();
        (self.pos, self.line, self.col)
    }

    fn reset(&mut self, m: (usize, u32, u32)) {
        self.pos = m.0;
        self.line = m.1;
        self.col = m.2;
    }

    fn source(&self, m: (usize, u32, u32)) -> SourceInfo {
        SourceInfo::written(Span { line: m.1, col: m.2, end_line: self.line, end_col: self.col })
    }

    fn lifetime(&mut self) -> Option<Lifetime> {
        if self.eat("'") {
            Some(Lifetime(self.word()))
        } else {
            None
        }
    }

    fn ref_kind(&mut self) -> RefKind {
        let kinds = [
            ("mut", RefKind::Mut),
            ("out", RefKind::Out),
            ("drop", RefKind::Drop),
            ("uninit", RefKind::Uninit),
        ];
        for (text, kind) in kinds {
            if self.eat_word(text) {
                return kind;
            }
        }
        RefKind::Shared
    }

    fn instance(&mut self) -> Instance {
        let name = self.word();
        let mut lifetimes = Vec::new();
        let mut types = Vec::new();
        if self.eat("<") {
            while !self.eat(">") {
                match self.lifetime() {
                    Some(l) => lifetimes.push(l),
                    None => types.push(self.ty()),
                }
                self.eat(",");
            }
        }
        Instance::new(&name, lifetimes, types)
    }

    fn ty(&mut self) -> Type {
        let m = self.mark();
        let kind = if self.eat("&") {
            let mut lifetime = self.lifetime();
            let kind = self.ref_kind();
            if lifetime.is_none() {
                lifetime = self.lifetime();
            }
            TypeKind::Ref(kind, lifetime, Box::new(self.ty()))
        } else if self.eat("*") {
            TypeKind::RawPtr(Box::new(self.ty()))
        } else if self.eat("[") {
            let elem = self.ty();
            self.expect(";");
            let n: u64 = self.word().parse().expect("array length");
            self.expect("]");
            TypeKind::Array(Box::new(elem), n)
        } else if self.at_word("fn") {
            self.word();
            self.expect("(");
            let mut params = Vec::new();
            while !self.eat(")") {
                params.push(self.ty());
                self.eat(",");
            }
            TypeKind::Fn(params)
        } else {
            let w = self.peek_word();
            if let Some(i) = int_named(&w) {
                self.word();
                TypeKind::Int(i)
            } else if let Some(f) = float_named(&w) {
                self.word();
                TypeKind::Float(f)
            } else if w == "bool" || w == "boolean" {
                self.word();
                TypeKind::Bool
            } else if w == "unit" {
                self.word();
                TypeKind::Unit
            } else if w == "never" {
                self.word();
                TypeKind::Never
            } else if w == "Self" || self.type_params.contains(&w) {
                TypeKind::Param(self.word())
            } else {
                TypeKind::Custom(self.instance())
            }
        };
        Type::new(kind, self.source(m))
    }

    fn place(&mut self) -> Place {
        let mut p = if self.eat("*") {
            return deref_place(self.place());
        } else if self.eat("(") {
            let inner = self.place();
            self.expect(")");
            inner
        } else {
            var_place(&self.word())
        };
        loop {
            if self.eat(".*") {
                p = deref_place(p);
            } else if self.eat(".") {
                let f = self.word();
                p = field_place(p, &f);
            } else if self.eat("[") {
                let index = self.operand();
                self.expect("]");
                p = index_place(p, index);
            } else if self.eat_word("as") {
                let v = self.word();
                p = downcast_place(p, &v);
            } else {
                return p;
            }
        }
    }

    fn number(&mut self) -> ConstVal {
        let negative = self.eat("-");
        let text = self.word();
        let digits: String = text.chars().take_while(|c| c.is_ascii_digit()).collect();
        let suffix = &text[digits.len()..];
        if self.at(".") && self.chars[self.pos + 1].is_ascii_digit() {
            self.bump();
            let rest = self.word();
            let frac: String = rest.chars().take_while(|c| c.is_ascii_digit()).collect();
            let sign = if negative { "-" } else { "" };
            let written = format!("{}{}.{}", sign, digits, frac);
            return match &rest[frac.len()..] {
                "f32" => {
                    let x: f32 = written.parse().expect("number");
                    float_const(x.to_bits() as u64, FloatTy::F32)
                }
                _ => {
                    let x: f64 = written.parse().expect("number");
                    float_const(x.to_bits(), FloatTy::F64)
                }
            };
        }
        let value: u64 = digits.parse().expect("number");
        let bits = if negative { value.wrapping_neg() } else { value };
        let kind = if suffix.is_empty() {
            IntTy::I64
        } else {
            int_named(suffix).expect("integer suffix")
        };
        int_const(bits, kind)
    }

    fn bytes(&mut self) -> Vec<u8> {
        let mut out = Vec::new();
        loop {
            let c = self.bump();
            if c == '"' {
                return out;
            }
            if c != '\\' {
                out.push(c as u8);
                continue;
            }
            match self.bump() {
                'n' => out.push(10),
                't' => out.push(9),
                'r' => out.push(13),
                '0' => out.push(0),
                'x' => {
                    let hex: String = [self.bump(), self.bump()].iter().collect();
                    out.push(u8::from_str_radix(&hex, 16).expect("hex digits"));
                }
                other => out.push(other as u8),
            }
        }
    }

    fn operand(&mut self) -> Operand {
        if self.eat_word("copy") {
            return copy_op(self.place());
        }
        if self.eat_word("move") {
            return move_op(self.place());
        }
        if self.at("take ") {
            self.word();
            return take_op(self.place());
        }
        if self.at("-") || self.peek_word().starts_with(|c: char| c.is_ascii_digit()) {
            return const_op(self.number());
        }
        if self.eat("b\"") {
            return const_op(byte_str_const(self.bytes()));
        }
        if self.eat_word("true") {
            return const_op(bool_const(true));
        }
        if self.eat_word("false") {
            return const_op(bool_const(false));
        }
        if self.eat_word("unit") {
            return const_op(unit_const());
        }
        if self.eat("<") {
            let self_ty = self.ty();
            let trait_path = if self.eat_word("as") { Some(self.instance()) } else { None };
            self.expect(">");
            self.expect("::");
            let method = self.instance();
            return const_op(match trait_path {
                Some(trait_path) => ConstVal::TraitFn { trait_path, self_ty, method },
                None => ConstVal::InherentFn { self_ty, method },
            });
        }
        let i = self.instance();
        const_op(fn_name_const_with_args(&i.name, i.type_args))
    }

    fn operands(&mut self, close: &str) -> Vec<Operand> {
        let mut out = Vec::new();
        while !self.eat(close) {
            out.push(self.operand());
            self.eat(",");
        }
        out
    }

    fn rvalue(&mut self) -> RValue {
        if self.eat("&") {
            let kind = self.ref_kind();
            return ref_rv(kind, self.place());
        }
        if self.eat("[") {
            return array_lit_rv(self.operands("]"));
        }
        let m = self.mark();
        let w = self.peek_word();
        let constant = w.starts_with(|c: char| c.is_ascii_digit()) || w == "b";
        if !constant && !w.is_empty() && !["copy", "move"].contains(&w.as_str()) && !self.at("take ") {
            let i = self.instance();
            if self.eat("::") {
                let variant = self.word();
                self.expect("(");
                let payload = self.operand();
                self.expect(")");
                return enum_constr_rv_with_args(&i.name, i.type_args, &variant, payload);
            }
            self.reset(m);
        }
        use_rv(self.operand())
    }

    fn statement(&mut self) -> Statement {
        let m = self.mark();
        let kind = if self.eat_word("call") {
            let callee = self.operand();
            self.expect("(");
            StatementKind::Call(callee, self.operands(")"))
        } else if self.eat_word("drop") {
            StatementKind::Drop(self.place())
        } else if self.eat_word("unborrow") {
            StatementKind::Unborrow(self.place())
        } else {
            let p = self.place();
            self.expect("=");
            StatementKind::Assign(p, self.rvalue())
        };
        self.expect(";");
        Statement::new(kind, self.source(m))
    }

    fn cases(&mut self) -> Vec<(String, String)> {
        let mut out = Vec::new();
        self.expect("[");
        while !self.eat("]") {
            let name = self.word();
            self.expect(":");
            out.push((name, self.word()));
            self.eat(",");
        }
        out
    }

    fn terminator(&mut self) -> Option<Terminator> {
        let m = self.mark();
        let kind = if self.eat_word("goto") {
            TerminatorKind::Goto(self.word())
        } else if self.eat_word("return") {
            TerminatorKind::Return
        } else if self.eat_word("abort") {
            TerminatorKind::Abort
        } else if self.eat_word("unreachable") {
            TerminatorKind::Unreachable
        } else if self.eat_word("branch") {
            self.expect("(");
            let cond = self.operand();
            self.expect(")");
            let cases = self.cases();
            TerminatorKind::Branch {
                cond,
                true_label: cases[0].1.clone(),
                false_label: cases[1].1.clone(),
            }
        } else if self.eat_word("switchEnum") {
            self.expect("(");
            let place = self.place();
            self.expect(")");
            TerminatorKind::SwitchEnum { place, cases: self.cases() }
        } else {
            return None;
        };
        Some(Terminator::new(kind, self.source(m)))
    }

    fn local(&mut self) -> Option<Local> {
        let m = self.mark();
        let name = self.word();
        self.expect(":");
        let first = self.peek_word();
        let stops = ["goto", "return", "abort", "unreachable", "branch", "switchEnum", "call"];
        let starts = ["drop", "unborrow"];
        if !stops.contains(&first.as_str()) && !starts.contains(&first.as_str()) {
            let typed = !first.is_empty() || self.at("&") || self.at("*") || self.at("[");
            if typed && !(self.at("*") && !self.declares()) {
                let ty = self.ty();
                if self.eat(";") {
                    return Some(Local { name, ty, source: self.source(m) });
                }
            }
        }
        self.reset(m);
        None
    }

    /// No `=` comes before the next `;`.
    fn declares(&self) -> bool {
        for c in &self.chars[self.pos..] {
            if *c == ';' {
                return true;
            }
            if *c == '=' {
                return false;
            }
        }
        false
    }

    fn body(&mut self) -> FunctionBody {
        let mut locals = Vec::new();
        while let Some(l) = self.local() {
            locals.push(l);
        }
        let mut blocks = Vec::new();
        while !self.eat("}") {
            let m = self.mark();
            let label = self.word();
            let label_source = self.source(m);
            self.expect(":");
            let mut statements = Vec::new();
            let terminator = loop {
                if let Some(t) = self.terminator() {
                    break t;
                }
                statements.push(self.statement());
            };
            blocks.push(BasicBlock { label, label_source, statements, terminator });
        }
        FunctionBody { locals, blocks }
    }

    fn generics(&mut self) -> GenericParams {
        let m = self.mark();
        let mut params = GenericParams::empty(self.source(m));
        if self.eat("<") {
            while !self.eat(">") {
                let at = self.mark();
                if let Some(l) = self.lifetime() {
                    let span = self.source(at).span();
                    if self.eat(":") {
                        loop {
                            let shorter = self.lifetime().expect("a lifetime");
                            params.outlives.push(OutlivesBound {
                                longer: l.clone(),
                                shorter,
                                source: self.source(at),
                            });
                            if !self.eat("+") {
                                break;
                            }
                        }
                    }
                    params.lifetime_params.push(LifetimeParam::written(l, span));
                } else {
                    let name = self.word();
                    let markers = self.markers();
                    self.type_params.push(name.clone());
                    params.type_params.push(TypeParam {
                        name,
                        bounds: Bounds::from_markers(markers),
                        source: self.source(at),
                    });
                }
                self.eat(",");
            }
        }
        params.source = self.source(m);
        params
    }

    fn markers(&mut self) -> Markers {
        let mut list = Vec::new();
        if self.eat(":") {
            loop {
                let w = self.word();
                list.push(marker_named(&w).expect("a marker"));
                if !self.eat("+") {
                    break;
                }
            }
        }
        Markers::from_list(&list)
    }

    fn function(&mut self, is_extern: bool) -> Function {
        let outer = self.type_params.len();
        self.expect("fn");
        let params = self.generics();
        let m = self.mark();
        let name = self.word();
        let name_source = self.source(m);
        self.expect("(");
        let mut list = Vec::new();
        while !self.eat(")") {
            let at = self.mark();
            let name = self.word();
            self.expect(":");
            let ty = self.ty();
            list.push(Param { name, ty, source: self.source(at) });
            self.eat(",");
        }
        let body = if self.eat(";") {
            None
        } else {
            self.expect("{");
            Some(self.body())
        };
        self.type_params.truncate(outer);
        Function {
            meta: DeclMeta { name, name_source, params, markers: trivial_markers() },
            is_extern,
            abi: None,
            params: list,
            body,
        }
    }

    /// Generics, name and markers of a type; markers may also come before
    /// the name.
    fn type_head(&mut self) -> DeclMeta {
        let params = self.generics();
        let mut list = Vec::new();
        let (name, name_source) = loop {
            let m = self.mark();
            let w = self.word();
            match marker_named(&w) {
                Some(k) => list.push(k),
                None => break (w, self.source(m)),
            }
        };
        let written = self.markers();
        let markers = if list.is_empty() { written } else { Markers::from_list(&list) };
        DeclMeta { name, name_source, params, markers }
    }

    fn members(&mut self) -> Vec<(String, Type, SourceInfo)> {
        let mut out = Vec::new();
        self.expect("{");
        while !self.eat("}") {
            let m = self.mark();
            let name = self.word();
            self.expect(":");
            let ty = self.ty();
            out.push((name, ty, self.source(m)));
            self.eat(",");
        }
        out
    }

    fn methods(&mut self) -> Vec<Function> {
        let mut out = Vec::new();
        self.expect("{");
        while !self.eat("}") {
            out.push(self.function(false));
        }
        out
    }

    fn declaration(&mut self) -> Declaration {
        self.type_params.clear();
        if self.eat_word("struct") {
            let meta = self.type_head();
            let fields = self.members();
            return Declaration::Struct(StructDecl {
                meta,
                fields: fields
                    .into_iter()
                    .map(|(name, ty, source)| StructField { name, ty, source })
                    .collect(),
            });
        }
        if self.eat_word("enum") {
            let meta = self.type_head();
            let variants = self.members();
            return Declaration::Enum(EnumDecl {
                meta,
                variants: variants
                    .into_iter()
                    .map(|(name, ty, source)| EnumVariant { name, ty, source })
                    .collect(),
            });
        }
        if self.eat_word("trait") {
            let meta = self.type_head();
            return Declaration::Trait(TraitDecl { meta, methods: self.methods() });
        }
        if self.eat_word("impl") {
            let params = self.generics();
            let m = self.mark();
            let first = self.ty();
            let (trait_path, target) = if self.eat_word("for") {
                self.reset(m);
                let path = self.instance();
                self.expect("for");
                (Some(path), self.ty())
            } else {
                (None, first)
            };
            return Declaration::Impl(ImplBlock {
                params,
                trait_path,
                target,
                methods: self.methods(),
            });
        }
        if self.eat_word("extern") {
            return Declaration::Fn(self.function(true));
        }
        Declaration::Fn(self.function(false))
    }
}

fn int_named(name: &str) -> Option<IntTy> {
    all_int_tys().into_iter().find(|k| k.name() == name)
}

fn float_named(name: &str) -> Option<FloatTy> {
    all_float_tys().into_iter().find(|k| k.name() == name)
}

fn marker_named(name: &str) -> Option<Marker> {
    [Marker::Copy, Marker::Drop, Marker::Move].into_iter().find(|k| k.name() == name)
}

fn parse(src: &str) -> Program {
    let mut r = Reader::new(src);
    let mut declarations = Vec::new();
    r.skip();
    while r.pos < r.chars.len() {
        declarations.push(r.declaration());
        r.skip();
    }
    Program { declarations, source: std::sync::Arc::new(src.to_string()) }
}

fn find_fn<'a>(program: &'a Program, name: &str) -> &'a Function {
    program
        .declarations
        .iter()
        .find_map(|d| match d {
            Declaration::Fn(f) if f.meta.name == name => Some(f),
            _ => None,
        })
        .expect("function not found")
}

// ---------- Writing programs ----------

fn operand_text(o: &Operand) -> String {
    match o {
        Operand::Copy(p) => format!("copy {}", place_text(p)),
        Operand::Move(p) => format!("move {}", place_text(p)),
        Operand::Take(p) => format!("take {}", place_text(p)),
        Operand::Const(c) => match c {
            ConstVal::Int { bits, ty } => format!("{}{}", bits, ty.name()),
            ConstVal::Bool(b) => format!("{}", b),
            ConstVal::Unit => "unit".to_string(),
            ConstVal::FnName(name, _) => name.clone(),
            other => panic!("no notation for {:?}", other),
        },
    }
}

fn place_text(p: &Place) -> String {
    match p {
        Place::Var(x) => x.clone(),
        Place::Field(inner, f) => format!("{}.{}", place_text(inner), f),
        Place::Downcast(inner, v) => format!("({} as {})", place_text(inner), v),
        Place::Deref(inner) => format!("{}.*", place_text(inner)),
        Place::Index(inner, o) => format!("{}[{}]", place_text(inner), operand_text(o)),
    }
}

fn rvalue_text(r: &RValue) -> String {
    match r {
        RValue::Use(o) => operand_text(o),
        RValue::Ref(k, p) => format!("{} {}", k.text(), place_text(p)),
        other => panic!("no notation for {:?}", other),
    }
}

fn statement_text(s: &Statement) -> String {
    match &s.kind {
        StatementKind::Assign(p, r) => format!("{} = {};", place_text(p), rvalue_text(r)),
        StatementKind::Call(f, args) => {
            let args: Vec<String> = args.iter().map(operand_text).collect();
            format!("call {}({});", operand_text(f), args.join(", "))
        }
        StatementKind::Drop(p) => format!("drop {};", place_text(p)),
        StatementKind::Unborrow(p) => format!("unborrow {};", place_text(p)),
        StatementKind::RequireUninit(p) => format!("require_uninit {};", place_text(p)),
    }
}

fn terminator_text(t: &Terminator) -> String {
    match &t.kind {
        TerminatorKind::Goto(l) => format!("goto {}", l),
        TerminatorKind::Return => "return".to_string(),
        TerminatorKind::Abort => "abort".to_string(),
        TerminatorKind::Unreachable => "unreachable".to_string(),
        TerminatorKind::Branch { cond, true_label, false_label } => {
            format!("branch({}) [true: {}, false: {}]", operand_text(cond), true_label, false_label)
        }
        TerminatorKind::SwitchEnum { place, cases } => {
            let cases: Vec<String> = cases.iter().map(|(v, l)| format!("{}: {}", v, l)).collect();
            format!("switchEnum({}) [{}]", place_text(place), cases.join(", "))
        }
    }
}

fn function_text(f: &Function) -> String {
    let params: Vec<String> =
        f.params.iter().map(|p| format!("{}: {}", p.name, p.ty.text())).collect();
    let head = format!("fn {}({})", f.meta.name, params.join(", "));
    match &f.body {
        None => format!("extern {};\n", head),
        Some(body) => {
            let mut out = format!("{} {{\n", head);
            for l in &body.locals {
                out.push_str(&format!("  {}: {};\n", l.name, l.ty.text()));
            }
            for b in &body.blocks {
                out.push_str(&format!("  {}:\n", b.label));
                for s in &b.statements {
                    out.push_str(&format!("    {}\n", statement_text(s)));
                }
                out.push_str(&format!("    {}\n", terminator_text(&b.terminator)));
            }
            out.push_str("}\n");
            out
        }
    }
}

fn program_text(program: &Program) -> String {
    let mut out = String::new();
    for d in &program.declarations {
        match d {
            Declaration::Fn(f) => out.push_str(&function_text(f)),
            other => panic!("no notation for {:?}", other),
        }
    }
    out
}

// ---------- Running passes ----------

fn code_tag(code: DiagCode) -> String {
    match code {
        DiagCode::TypeCheck(c) => format!("TC-{:?}", c),
        DiagCode::Lifetime(c) => format!("LT-{:?}", c),
        DiagCode::BlockReachability(c) => format!("BR-{:?}", c),
    }
}

fn render(d: &Diagnostic) -> String {
    let span = d.source.span();
    let mut out = format!("[{}] at {}:{}: ", code_tag(d.code), span.line, span.col);
    if let Some(f) = &d.function {
        out.push_str(&format!("In function '{}': ", f));
    }
    out.push_str(&d.message);
    if let Some(h) = &d.hint {
        out.push_str(&format!("\nhint: {}", h));
    }
    out
}

/// The types of all right-hand sides and operands of a function.
fn check_types(env: &IndexedProgram, f: &Function, d: &mut Diagnostics) {
    let local_env = LocalEnv::for_decl(env, &f.meta.params);
    let locals = f.locals_map();
    let Some(body) = &f.body else {
        return;
    };
    for b in &body.blocks {
        for s in &b.statements {
            let mut found = Vec::new();
            match &s.kind {
                StatementKind::Assign(p, r) => {
                    found.push(local_env.type_of_rvalue(r, s.source, &locals).err());
                    found.push(local_env.type_of_place(p, &locals).err());
                    if let RValue::Ref(_, q) = r {
                        found.push(local_env.type_of_place(q, &locals).err());
                    }
                }
                StatementKind::Call(f, args) => {
                    found.push(local_env.type_of_operand(f, &locals).err());
                    for a in args {
                        found.push(local_env.type_of_operand(a, &locals).err());
                    }
                }
                _ => {}
            }
            for e in found.into_iter().flatten() {
                let mut format = DiagnosticFormat::new();
                let scope = format.scope(&f.meta);
                let message = e.message(&mut format, &scope, env);
                let code = DiagCode::TypeCheck(e.code());
                d.push_error(Diagnostic::new(code, s.source, message).in_function(&f.meta.name));
            }
        }
    }
}

/// Elide, relax, insert the ends of loans, and check a program.
fn check(mut program: Program, d: &mut Diagnostics) {
    elide_program(&mut program);
    let (env, errors) = IndexedProgram::build(&program);
    for e in errors {
        d.push_error(e);
    }
    copy_relaxation::elaborate(&mut program, &env);
    let (env, _) = IndexedProgram::build(&program);
    nll::elaborate(&mut program, &env);
    let (env, _) = IndexedProgram::build(&program);
    for decl in &program.declarations {
        if let Declaration::Fn(f) = decl {
            check_types(&env, f, d);
        }
    }
    check_program(&program, &env, d);
    block_reachability::check_program(&env, d);
}

fn run(src: &str) -> (Vec<String>, Vec<String>) {
    let mut d = Diagnostics::default();
    check(parse(src), &mut d);
    (d.errors.iter().map(render).collect(), d.warnings.iter().map(render).collect())
}

fn assert_no_diagnostics(src: &str) {
    let (errs, warns) = run(src);
    assert!(errs.is_empty() && warns.is_empty(), "errors: {:?}\nwarnings: {:?}", errs, warns);
}

fn assert_contained(found: &[String], expected: &[&str]) {
    for e in expected {
        assert!(found.iter().any(|f| f.contains(e)), "expected {:?} in {:?}", e, found);
    }
}

fn assert_errors_contain(errs: &[String], expected: &[&str]) {
    assert_contained(errs, expected);
}

fn assert_warnings_contain(warns: &[String], expected: &[&str]) {
    assert_contained(warns, expected);
}

fn assert_err(src: &str, expected: &str) {
    let (errs, _) = run(src);
    assert_contained(&errs, &[expected]);
}

/// The module that a program is lowered to.
fn ll_of(src: &str) -> String {
    let program = parse(src);
    let (env, _) = IndexedProgram::build(&program);
    lower_mir_to_llvm(&program, &env)
}

fn assert_contains(haystack: &str, needle: &str) {
    assert!(
        haystack.contains(needle),
        "expected {:?} in output:\n{}",
        needle,
        haystack
    );
}

fn assert_ll_eq(input: &str, expected: &str) {
    let got = ll_of(input);
    let a = got.trim();
    let b = expected.trim();
    if a != b {
        panic!("LLVM IR differs\n{}", format_line_diff(b, a));
    }
}

// ---------- Comparing texts ----------

#[test]
fn format_line_diff_shows_per_line_pairs() {
    let expected = "one\ntwo\nthree";
    let got = "one\nTWO\nthree";
    let diff = format_line_diff(expected, got);
    assert!(
        diff.contains("1 of 3 line(s) differ (expected 3, got 3):"),
        "missing header, got:\n{}",
        diff
    );
    assert!(
        diff.contains("  line 2:\n    expected: \"two\"\n    got:      \"TWO\"\n"),
        "missing line 2 pair, got:\n{}",
        diff
    );
}

#[test]
fn format_line_diff_handles_length_mismatch() {
    let expected = "one\ntwo";
    let got = "one\ntwo\nthree";
    let diff = format_line_diff(expected, got);
    assert!(
        diff.contains("1 of 3 line(s) differ (expected 2, got 3):"),
        "missing header, got:\n{}",
        diff
    );
    assert!(
        diff.contains("  line 3:\n    expected: <missing>\n    got:      \"three\"\n"),
        "missing line 3 pair, got:\n{}",
        diff
    );
}

#[test]
fn texts_with_the_same_lines_have_no_line_differences() {
    assert_eq!(
        format_line_diff("one\r\ntwo\n", "one\ntwo"),
        "(no line differences — trailing whitespace or non-line-based difference)\n"
    );
    assert_eq!(split_lines("a\r\nb\r"), vec!["a".to_string(), "b\r".to_string()]);
    assert_eq!(split_lines("\r\r\n\n"), vec!["\r".to_string(), String::new()]);
    assert_eq!(split_lines(""), Vec::<String>::new());
}

#[test]
fn a_difference_shows_escapes() {
    assert_eq!(
        format_line_diff("a\tb", "a \"b\"\nc"),
        "2 of 2 line(s) differ (expected 1, got 2):\n\n  line 1:\n    expected: \"a\\tb\"\n    \
         got:      \"a \\\"b\\\"\"\n  line 2:\n    expected: <missing>\n    got:      \"c\"\n"
    );
}

#[test]
fn lines_are_shown_as_they_are_given() {
    let expected = vec!["x".to_string(), "y".to_string()];
    let got = vec!["x".to_string()];
    let shown = vec!["<x>".to_string(), "<y>".to_string()];
    assert_eq!(
        render_line_diff(&expected, &got, &shown, &vec!["<x>".to_string()]),
        "1 of 2 line(s) differ (expected 2, got 1):\n\n  line 2:\n    expected: <y>\n    \
         got:      <missing>\n"
    );
}

// ---------- Enums ----------

#[test]
fn enum_with_unit_variants_only() {
    // All variants unit → max_payload_size = 0, overall_align = 2
    // (from i16 disc). Payload lane is i16 so LLVM infers align 2.
    let ll = ll_of(
        "
        enum E { A: unit B: unit }
        fn f() { entry: return }
        ",
    );
    assert_contains(&ll, "%E = type { i16, [0 x i8], [0 x i16] }");
}

#[test]
fn enum_with_number_payload_pads_to_i64_alignment() {
    // i64 needs align 8 → payload_offset = 8, pad_bytes = 6.
    // Payload lane is i64 (align 8) with count ceil(8/8) = 1, so
    // LLVM infers the struct's align as 8.
    let ll = ll_of(
        "
        enum E { A: i64 B: unit }
        fn f() { entry: return }
        ",
    );
    assert_contains(&ll, "%E = type { i16, [6 x i8], [1 x i64] }");
}

#[test]
fn enum_with_bool_payload_stays_align_2() {
    // bool align 1, i16 align 2 → overall_align 2, pad_bytes 0.
    // Payload lane is i16, count = ceil(1/2) = 1 (2 bytes storage
    // for a 1-byte payload — trivial slack).
    let ll = ll_of(
        "
        enum E { A: bool B: unit }
        fn f() { entry: return }
        ",
    );
    assert_contains(&ll, "%E = type { i16, [0 x i8], [1 x i16] }");
}

#[test]
fn enum_with_ref_payload_pads_to_pointer_alignment() {
    let ll = ll_of(
        "
        enum E { A: &mut i64 B: unit }
        fn f() { entry: return }
        ",
    );
    assert_contains(&ll, "%E = type { i16, [6 x i8], [1 x i64] }");
}

#[test]
fn enum_infers_align_when_embedded_in_struct() {
    // Regression: with an i8 payload lane, LLVM would infer %E align = 2
    // and place `e` at offset 2 within %S, misaligning the payload. With
    // an i64 lane, LLVM infers align 8 and pads `b` correctly.
    let ll = ll_of(
        "
        enum E { A: i64 B: unit }
        struct S { b: bool e: E }
        fn f() { entry: return }
        ",
    );
    assert_contains(&ll, "%E = type { i16, [6 x i8], [1 x i64] }");
    assert_contains(&ll, "%S = type { i1, %E }");
}

#[test]
fn enum_local_alloca_uses_layout_alignment() {
    let ll = ll_of(
        "
        enum E { A: i64 B: unit }
        fn f() {
          e: E;
          entry: return
        }
        ",
    );
    assert_contains(&ll, "%local.e = alloca %E, align 8");
}

#[test]
fn enum_of_only_unit_variants_alloca_is_align_2() {
    let ll = ll_of(
        "
        enum E { A: unit B: unit }
        fn f() {
          e: E;
          entry: return
        }
        ",
    );
    assert_contains(&ll, "%local.e = alloca %E, align 2");
}

#[test]
fn enum_construction_writes_discriminant_at_field_zero() {
    let ll = ll_of(
        "
        enum E { A: i64 B: unit }
        fn f() {
          e: E;
          entry:
            e = E::A(42);
            return
        }
        ",
    );
    // Discriminant address at field 0.
    assert_contains(
        &ll,
        "getelementptr %E, ptr %local.e, i32 0, i32 0",
    );
    // A is variant 0 (declaration order).
    assert_contains(&ll, "store i16 0, ptr");
}

#[test]
fn enum_construction_second_variant_gets_index_1() {
    let ll = ll_of(
        "
        enum E { A: i64 B: unit }
        fn f() {
          e: E;
          entry:
            e = E::B(unit);
            return
        }
        ",
    );
    assert_contains(&ll, "store i16 1, ptr");
}

#[test]
fn enum_construction_writes_payload_at_field_two() {
    let ll = ll_of(
        "
        enum E { A: i64 B: unit }
        fn f() {
          e: E;
          entry:
            e = E::A(99);
            return
        }
        ",
    );
    assert_contains(
        &ll,
        "getelementptr %E, ptr %local.e, i32 0, i32 2",
    );
    // Payload store at that address.
    assert_contains(&ll, "store i64 99, ptr");
}

#[test]
fn enum_construction_with_unit_payload_skips_payload_store() {
    let ll = ll_of(
        "
        enum E { A: unit B: unit }
        fn f() {
          e: E;
          entry:
            e = E::A(unit);
            return
        }
        ",
    );
    // Disc write only — no GEP to field 2 for this variant.
    assert_contains(&ll, "store i16 0, ptr");
    assert!(
        !ll.contains("getelementptr %E, ptr %local.e, i32 0, i32 2"),
        "expected no payload GEP for unit variant:\n{}",
        ll
    );
}

#[test]
fn downcast_read_geps_to_payload_field() {
    // Refined via the switchEnum arm — variant_flow requires it.
    let ll = ll_of(
        "
        enum E { A: i64 B: unit }
        fn f(e: E) {
          x: i64;
          entry:
            switchEnum(e) [A: a_arm, B: b_arm]
          a_arm:
            x = copy e as A;
            return
          b_arm: return
        }
        ",
    );
    // In a_arm: GEP to payload (field 2), then load.
    assert_contains(
        &ll,
        "getelementptr %E, ptr %local.e, i32 0, i32 2",
    );
    assert_contains(&ll, "load i64, ptr");
}

#[test]
fn switch_enum_loads_disc_and_emits_switch() {
    let ll = ll_of(
        "
        enum E { A: i64 B: unit }
        fn f(e: E) {
          entry:
            switchEnum(e) [A: a_arm, B: b_arm]
          a_arm: return
          b_arm: return
        }
        ",
    );
    assert_contains(
        &ll,
        "getelementptr %E, ptr %local.e, i32 0, i32 0",
    );
    assert_contains(&ll, "load i16, ptr");
    assert_contains(&ll, "switch i16");
    assert_contains(&ll, "i16 0, label %a_arm");
    assert_contains(&ll, "i16 1, label %b_arm");
}

#[test]
fn switch_enum_reserves_unreachable_default_block() {
    let ll = ll_of(
        "
        enum E { A: unit B: unit }
        fn f(e: E) {
          entry:
            switchEnum(e) [A: a_arm, B: b_arm]
          a_arm: return
          b_arm: return
        }
        ",
    );
    assert_contains(&ll, "label %.switch_default.0");
    assert_contains(&ll, ".switch_default.0:");
    // The default block body is `unreachable`.
    let default_idx = ll.find(".switch_default.0:").expect("default block emitted");
    let tail = &ll[default_idx..];
    assert!(
        tail.contains("unreachable"),
        "default block should contain `unreachable`:\n{}",
        tail
    );
}

#[test]
fn multiple_switches_number_their_defaults() {
    let ll = ll_of(
        "
        enum E { A: unit B: unit }
        fn f(e: E, e2: E) {
          entry:
            switchEnum(e) [A: a1, B: b1]
          a1:
            switchEnum(e2) [A: a2, B: b2]
          b1: return
          a2: return
          b2: return
        }
        ",
    );
    assert_contains(&ll, ".switch_default.0:");
    assert_contains(&ll, ".switch_default.1:");
}

#[test]
fn switch_default_blocks_come_after_body_blocks() {
    // Structural: default blocks are appended after all MIR blocks so
    // they don't interrupt the natural block ordering the pretty-printer
    // (and any downstream reader) expects.
    let ll = ll_of(
        "
        enum E { A: unit B: unit }
        fn f(e: E) {
          entry:
            switchEnum(e) [A: a_arm, B: b_arm]
          a_arm: return
          b_arm: return
        }
        ",
    );
    let default_pos = ll.find(".switch_default.0:").unwrap();
    let a_arm_pos = ll.find("a_arm:").unwrap();
    let b_arm_pos = ll.find("b_arm:").unwrap();
    assert!(
        default_pos > a_arm_pos && default_pos > b_arm_pos,
        "default block should come after all MIR blocks"
    );
}

// ---------- Function bodies ----------

#[test]
fn empty_fn_has_init_block_and_returns() {
    let ll = ll_of("fn f() { entry: return }");
    assert_contains(&ll, "define void @f()");
    assert_contains(&ll, ".init:");
    assert_contains(&ll, "br label %entry");
    assert_contains(&ll, "entry:");
    assert_contains(&ll, "ret void");
}

#[test]
fn params_get_alloca_and_arg_store() {
    let ll = ll_of("fn f(x: i64) { entry: return }");
    assert_contains(&ll, "define void @f(i64 %arg.x)");
    assert_contains(&ll, "%local.x = alloca i64");
    assert_contains(&ll, "store i64 %arg.x, ptr %local.x");
}

#[test]
fn locals_get_alloca_no_arg_store() {
    let ll = ll_of(
        "
        fn f() {
          x: i64;
          entry: return
        }
        ",
    );
    assert_contains(&ll, "%local.x = alloca i64");
    // No arg for a local:
    assert!(!ll.contains("store i64 %arg.x"));
}

#[test]
fn return_param_codegen() {
    assert_ll_eq(
        "
        fn f(x: i64, $return: &out i64) {
          entry:
            $return.* = copy x;
            return
        }
        ",
        "
; Generated from Silica-MIR
declare void @abort()

define i64 @f(i64 %arg.x) {
.init:
  %local.$return_val = alloca i64, align 8
  %local.$return = alloca ptr, align 8
  store ptr %local.$return_val, ptr %local.$return
  %local.x = alloca i64, align 8
  store i64 %arg.x, ptr %local.x
  br label %entry
entry:
  %t.0 = load i64, ptr %local.x
  %t.1 = load ptr, ptr %local.$return
  store i64 %t.0, ptr %t.1
  %t.2 = load i64, ptr %local.$return_val
  ret i64 %t.2
}
        ",
    );
}

#[test]
fn return_param_call_codegen() {
    assert_ll_eq(
        "
        fn callee($return: &out i64) {
          entry:
            $return.* = 42i64;
            return
        }
        fn caller(out: &out i64) {
          entry:
            call callee(move out);
            return
        }
        ",
        "
; Generated from Silica-MIR
declare void @abort()

define i64 @callee() {
.init:
  %local.$return_val = alloca i64, align 8
  %local.$return = alloca ptr, align 8
  store ptr %local.$return_val, ptr %local.$return
  br label %entry
entry:
  %t.0 = load ptr, ptr %local.$return
  store i64 42, ptr %t.0
  %t.1 = load i64, ptr %local.$return_val
  ret i64 %t.1
}

define void @caller(ptr %arg.out) {
.init:
  %local.out = alloca ptr, align 8
  store ptr %arg.out, ptr %local.out
  br label %entry
entry:
  %t.0 = load ptr, ptr %local.out
  %t.1 = call i64 @callee()
  store i64 %t.1, ptr %t.0
  ret void
}
        ",
    );
}

#[test]
fn return_param_extern_fn() {
    assert_ll_eq(
        "
        extern fn ext(x: i64, $return: &out i64);
        fn caller(out: &out i64) {
          entry:
            call ext(42i64, move out);
            return
        }
        ",
        "
; Generated from Silica-MIR
declare void @abort()

declare i64 @ext(i64)

define void @caller(ptr %arg.out) {
.init:
  %local.out = alloca ptr, align 8
  store ptr %arg.out, ptr %local.out
  br label %entry
entry:
  %t.0 = load ptr, ptr %local.out
  %t.1 = call i64 @ext(i64 42)
  store i64 %t.1, ptr %t.0
  ret void
}
        ",
    );
}

// ---------- Byte strings ----------

#[test]
fn byte_str_lowers_to_aggregate_constant_store() {
    let ll = ll_of(
        r#"
        fn f() {
          s: [u8; 5];
          entry:
            s = b"hello";
            return
        }
        "#,
    );
    // The `.init` alloca uses `[N x i8]`, align 1 (u8 alignment).
    assert_contains(&ll, "%local.s = alloca [5 x i8], align 1");
    // The literal is inlined as an LLVM aggregate constant and stored
    // in a single instruction.
    assert_contains(&ll, r#"store [5 x i8] c"hello", ptr %local.s"#);
}

#[test]
fn empty_byte_str_stores_empty_aggregate() {
    let ll = ll_of(
        r#"
        fn f() {
          s: [u8; 0];
          entry:
            s = b"";
            return
        }
        "#,
    );
    assert_contains(&ll, "%local.s = alloca [0 x i8], align 1");
    // Zero-length aggregate constant.
    assert_contains(&ll, r#"store [0 x i8] c"""#);
}

#[test]
fn newline_becomes_llvm_0a_escape() {
    let ll = ll_of(
        r#"
        fn f() {
          s: [u8; 3];
          entry:
            s = b"a\nb";
            return
        }
        "#,
    );
    // LLVM's byte-string escape syntax uses `\XX` with uppercase hex.
    assert_contains(&ll, r#"c"a\0Ab""#);
}

#[test]
fn high_bytes_use_llvm_hex_escapes() {
    let ll = ll_of(
        r#"
        fn f() {
          s: [u8; 3];
          entry:
            s = b"\xFF\x00\x7E";
            return
        }
        "#,
    );
    // 0xFF → \FF; 0x00 → \00; 0x7E is printable ~ (kept verbatim).
    assert_contains(&ll, r#"c"\FF\00~""#);
}

#[test]
fn quote_and_backslash_escape() {
    // The literal contains `"` and `\` — both must be LLVM-escaped
    // in the emitted aggregate constant.
    let ll = ll_of(
        r#"
        fn f() {
          s: [u8; 2];
          entry:
            s = b"\"\\";
            return
        }
        "#,
    );
    // 0x22 (") → \22; 0x5C (\) → \5C.
    assert_contains(&ll, r#"c"\22\5C""#);
}

#[test]
fn snapshot_hello_world_full_ir() {
    // Byte string in a fn body — one alloca, one aggregate store.
    // Pins the full lowering for the "hello world" archetype.
    assert_ll_eq(
        r#"
        fn f() {
          s: [u8; 5];
          entry:
            s = b"hello";
            return
        }
        "#,
        r#"; Generated from Silica-MIR
declare void @abort()

define void @f() {
.init:
  %local.s = alloca [5 x i8], align 1
  br label %entry
entry:
  store [5 x i8] c"hello", ptr %local.s
  ret void
}"#,
    );
}

// ---------- Intrinsic calls ----------

#[test]
fn intrinsic_call_produces_no_symbol_call() {
    let ll = ll_of(
        "
        fn f(a: i64, b: i64) {
          r: i64;
          out: &out i64;
          entry:
            out = &out r;
            call $i64_add(copy a, copy b, move out);
            return
        }
        ",
    );
    // The intrinsic symbol must not appear in codegen output; the call
    // was intercepted and lowered inline.
    assert!(
        !ll.contains("@$i64_add"),
        "intrinsic symbol leaked into IR:\n{}",
        ll
    );
    assert!(
        !ll.contains("call void @$"),
        "no `call void @$…` should be present:\n{}",
        ll
    );
}

#[test]
fn i64_add_lowers_to_llvm_add() {
    let ll = ll_of(
        "
        fn f(a: i64, b: i64) {
          r: i64;
          out: &out i64;
          entry:
            out = &out r;
            call $i64_add(copy a, copy b, move out);
            return
        }
        ",
    );
    assert_contains(&ll, "= add i64");
}

#[test]
fn i64_sub_lowers_to_llvm_sub() {
    let ll = ll_of(
        "
        fn f(a: i64, b: i64) {
          r: i64;
          out: &out i64;
          entry:
            out = &out r;
            call $i64_sub(copy a, copy b, move out);
            return
        }
        ",
    );
    assert_contains(&ll, "= sub i64");
}

#[test]
fn i64_mul_lowers_to_llvm_mul() {
    let ll = ll_of(
        "
        fn f(a: i64, b: i64) {
          r: i64;
          out: &out i64;
          entry:
            out = &out r;
            call $i64_mul(copy a, copy b, move out);
            return
        }
        ",
    );
    assert_contains(&ll, "= mul i64");
}

#[test]
fn i64_lt_lowers_to_icmp_slt() {
    let ll = ll_of(
        "
        fn f(a: i64, b: i64) {
          r: bool;
          out: &out bool;
          entry:
            out = &out r;
            call $i64_lt(copy a, copy b, move out);
            return
        }
        ",
    );
    assert_contains(&ll, "= icmp slt i64");
    // Result stored as i1 through the &out bool pointer.
    assert_contains(&ll, "store i1");
}

#[test]
fn i64_neg_lowers_to_sub_zero() {
    let ll = ll_of(
        "
        fn f(a: i64) {
          r: i64;
          out: &out i64;
          entry:
            out = &out r;
            call $i64_neg(copy a, move out);
            return
        }
        ",
    );
    // LLVM has no dedicated `neg` — canonical is `sub 0, x`.
    assert_contains(&ll, "= sub i64 0,");
}

#[test]
fn f64_add_lowers_to_llvm_fadd() {
    let ll = ll_of(
        "
        fn f(a: f64, b: f64) {
          r: f64;
          out: &out f64;
          entry:
            out = &out r;
            call $f64_add(copy a, copy b, move out);
            return
        }
        ",
    );
    assert_contains(&ll, "= fadd double");
}

#[test]
fn f64_mul_lowers_to_llvm_fmul() {
    let ll = ll_of(
        "
        fn f(a: f64, b: f64) {
          r: f64;
          out: &out f64;
          entry:
            out = &out r;
            call $f64_mul(copy a, copy b, move out);
            return
        }
        ",
    );
    assert_contains(&ll, "= fmul double");
}

#[test]
fn intrinsic_result_stored_through_out_pointer() {
    // The `move out` operand loads out's slot to get the pointee address;
    // the intrinsic result is stored through that pointer.
    let ll = ll_of(
        "
        fn f(a: i64, b: i64) {
          r: i64;
          out: &out i64;
          entry:
            out = &out r;
            call $i64_add(copy a, copy b, move out);
            return
        }
        ",
    );
    // Sequence check: the add's result feeds a `store i64 %..., ptr %...`.
    let store_line = ll
        .lines()
        .find(|l| l.contains("store i64 %"))
        .unwrap_or_else(|| panic!("no store i64 %... in IR:\n{}", ll));
    assert!(
        store_line.contains(", ptr %"),
        "expected store-through-ptr shape: {}",
        store_line
    );
}

#[test]
fn snapshot_i64_add_full_ir() {
    assert_ll_eq(
        "
        fn f(a: i64, b: i64) {
          r: i64;
          out: &out i64;
          entry:
            out = &out r;
            call $i64_add(copy a, copy b, move out);
            return
        }
        ",
        "\
; Generated from Silica-MIR
declare void @abort()

define void @f(i64 %arg.a, i64 %arg.b) {
.init:
  %local.a = alloca i64, align 8
  store i64 %arg.a, ptr %local.a
  %local.b = alloca i64, align 8
  store i64 %arg.b, ptr %local.b
  %local.r = alloca i64, align 8
  %local.out = alloca ptr, align 8
  br label %entry
entry:
  store ptr %local.r, ptr %local.out
  %t.0 = load i64, ptr %local.a
  %t.1 = load i64, ptr %local.b
  %t.2 = add i64 %t.0, %t.1
  %t.3 = load ptr, ptr %local.out
  store i64 %t.2, ptr %t.3
  ret void
}",
    );
}

#[test]
fn snapshot_i64_lt_full_ir() {
    // Comparison intrinsic: operand type is i64, result type is
    // bool (i1). Verifies the two-type shape of the signature and
    // that the &out slot is `alloca ptr` regardless of pointee.
    assert_ll_eq(
        "
        fn f(a: i64, b: i64) {
          r: bool;
          out: &out bool;
          entry:
            out = &out r;
            call $i64_lt(copy a, copy b, move out);
            return
        }
        ",
        "\
; Generated from Silica-MIR
declare void @abort()

define void @f(i64 %arg.a, i64 %arg.b) {
.init:
  %local.a = alloca i64, align 8
  store i64 %arg.a, ptr %local.a
  %local.b = alloca i64, align 8
  store i64 %arg.b, ptr %local.b
  %local.r = alloca i1, align 1
  %local.out = alloca ptr, align 8
  br label %entry
entry:
  store ptr %local.r, ptr %local.out
  %t.0 = load i64, ptr %local.a
  %t.1 = load i64, ptr %local.b
  %t.2 = icmp slt i64 %t.0, %t.1
  %t.3 = load ptr, ptr %local.out
  store i1 %t.2, ptr %t.3
  ret void
}",
    );
}

#[test]
fn snapshot_i64_neg_full_ir() {
    // Unary intrinsic — single input + out. Verifies the LLVM `sub 0, x`
    // idiom for integer negation.
    assert_ll_eq(
        "
        fn f(a: i64) {
          r: i64;
          out: &out i64;
          entry:
            out = &out r;
            call $i64_neg(copy a, move out);
            return
        }
        ",
        "\
; Generated from Silica-MIR
declare void @abort()

define void @f(i64 %arg.a) {
.init:
  %local.a = alloca i64, align 8
  store i64 %arg.a, ptr %local.a
  %local.r = alloca i64, align 8
  %local.out = alloca ptr, align 8
  br label %entry
entry:
  store ptr %local.r, ptr %local.out
  %t.0 = load i64, ptr %local.a
  %t.1 = sub i64 0, %t.0
  %t.2 = load ptr, ptr %local.out
  store i64 %t.1, ptr %t.2
  ret void
}",
    );
}

#[test]
fn snapshot_f64_mul_full_ir() {
    // Float intrinsic — operand and out both `double`.
    assert_ll_eq(
        "
        fn f(a: f64, b: f64) {
          r: f64;
          out: &out f64;
          entry:
            out = &out r;
            call $f64_mul(copy a, copy b, move out);
            return
        }
        ",
        "\
; Generated from Silica-MIR
declare void @abort()

define void @f(double %arg.a, double %arg.b) {
.init:
  %local.a = alloca double, align 8
  store double %arg.a, ptr %local.a
  %local.b = alloca double, align 8
  store double %arg.b, ptr %local.b
  %local.r = alloca double, align 8
  %local.out = alloca ptr, align 8
  br label %entry
entry:
  store ptr %local.r, ptr %local.out
  %t.0 = load double, ptr %local.a
  %t.1 = load double, ptr %local.b
  %t.2 = fmul double %t.0, %t.1
  %t.3 = load ptr, ptr %local.out
  store double %t.2, ptr %t.3
  ret void
}",
    );
}

#[test]
fn snapshot_composed_intrinsics_full_ir() {
    // Multiple intrinsics feeding each other, plus a call from a fn
    // returning through &out. Pins the full lowering of a realistic
    // arithmetic pipeline: `(a + b) * a` written to `*out`.
    assert_ll_eq(
        "
        fn compute(a: i64, b: i64, out: &out i64) {
          t1: i64;
          t2: i64;
          t1_out: &out i64;
          t2_out: &out i64;
          entry:
            t1_out = &out t1;
            call $i64_add(copy a, copy b, move t1_out);
            t2_out = &out t2;
            call $i64_mul(copy t1, copy a, move t2_out);
            *out = copy t2;
            return
        }
        ",
        "\
; Generated from Silica-MIR
declare void @abort()

define void @compute(i64 %arg.a, i64 %arg.b, ptr %arg.out) {
.init:
  %local.a = alloca i64, align 8
  store i64 %arg.a, ptr %local.a
  %local.b = alloca i64, align 8
  store i64 %arg.b, ptr %local.b
  %local.out = alloca ptr, align 8
  store ptr %arg.out, ptr %local.out
  %local.t1 = alloca i64, align 8
  %local.t2 = alloca i64, align 8
  %local.t1_out = alloca ptr, align 8
  %local.t2_out = alloca ptr, align 8
  br label %entry
entry:
  store ptr %local.t1, ptr %local.t1_out
  %t.0 = load i64, ptr %local.a
  %t.1 = load i64, ptr %local.b
  %t.2 = add i64 %t.0, %t.1
  %t.3 = load ptr, ptr %local.t1_out
  store i64 %t.2, ptr %t.3
  store ptr %local.t2, ptr %local.t2_out
  %t.4 = load i64, ptr %local.t1
  %t.5 = load i64, ptr %local.a
  %t.6 = mul i64 %t.4, %t.5
  %t.7 = load ptr, ptr %local.t2_out
  store i64 %t.6, ptr %t.7
  %t.8 = load i64, ptr %local.t2
  %t.9 = load ptr, ptr %local.out
  store i64 %t.8, ptr %t.9
  ret void
}",
    );
}

#[test]
fn snapshot_i64_popcount_full_ir() {
    // Exercises the `@llvm.*`-call path: an intrinsic with a
    // `llvm_declares` entry surfaces its `declare` in the module
    // preamble AND its `call i64 @llvm.ctpop.i64(...)` inline.
    // Pins the whole shape so future changes to declare-emission
    // (e.g. ordering, dedupe, per-fn vs module-level) fail loudly.
    assert_ll_eq(
        "
        fn f(a: i64) {
          r: i64;
          out: &out i64;
          entry:
            out = &out r;
            call $i64_popcount(copy a, move out);
            return
        }
        ",
        "\
; Generated from Silica-MIR
declare void @abort()
declare i64 @llvm.ctpop.i64(i64)

define void @f(i64 %arg.a) {
.init:
  %local.a = alloca i64, align 8
  store i64 %arg.a, ptr %local.a
  %local.r = alloca i64, align 8
  %local.out = alloca ptr, align 8
  br label %entry
entry:
  store ptr %local.r, ptr %local.out
  %t.0 = load i64, ptr %local.a
  %t.1 = call i64 @llvm.ctpop.i64(i64 %t.0)
  %t.2 = load ptr, ptr %local.out
  store i64 %t.1, ptr %t.2
  ret void
}",
    );
}

#[test]
fn unused_intrinsic_declare_is_not_emitted() {
    // Programs that don't call popcount must not have popcount's
    // `declare` in their preamble — proves `llvm_declares_needed`
    // prunes correctly. Guards against future declare emission
    // becoming unconditional and bloating every module.
    let ll = ll_of(
        "
        fn f(a: i64, b: i64) {
          r: i64;
          out: &out i64;
          entry:
            out = &out r;
            call $i64_add(copy a, copy b, move out);
            return
        }
        ",
    );
    assert!(
        !ll.contains("@llvm.ctpop.i64"),
        "popcount's declare leaked into a program that doesn't use it:\n{}",
        ll
    );
}

#[test]
fn bool_result_of_intrinsic_used_in_branch_ok() {
    // Compute a bool via `$i64_gt` (writes through `&out bool`),
    // then feed to a `branch` terminator. Currently the branch does
    // no refinement on its operand (unlike switchEnum); this pins the
    // current behavior and provides an anchor for a future flow-
    let (errs, _) = run(
        "
        fn f(x: i64) {
          b: bool;
          bo: &out bool;
          y: i64;
          entry:
            bo = &out b;
            call $i64_gt(copy x, 0i64, move bo);
            branch(copy b) [true: t_arm, false: f_arm]
          t_arm:
            y = 1;
            goto join
          f_arm:
            y = 2;
            goto join
          join:
            return
        }
        ",
    );
    assert!(
        errs.is_empty(),
        "expected clean run for bool-branch program, got: {:?}",
        errs
    );
}

#[test]
fn f64_lt_lowers_to_ordered_fcmp() {
    // Float predicates are ordered by default (NaN inputs make the
    // comparison false). Ordered less-than lowers to `fcmp olt`.
    let ll = ll_of(
        "
        fn f(x: f64, y: f64) {
          b: bool;
          out: &out bool;
          entry:
            out = &out b;
            call $f64_lt(copy x, copy y, move out);
            return
        }
        ",
    );
    assert_contains(&ll, "fcmp olt double");
}

#[test]
fn i32_add_uses_i32_width() {
    let ll = ll_of(
        "
        fn f(a: i32, b: i32) {
          r: i32;
          out: &out i32;
          entry:
            out = &out r;
            call $i32_add(copy a, copy b, move out);
            return
        }
        ",
    );
    assert_contains(&ll, "= add i32");
}

#[test]
fn u8_mul_uses_i8_width() {
    // u8 and i8 share the LLVM i8 type — signedness only affects
    // ops like sdiv/udiv, not add/sub/mul.
    let ll = ll_of(
        "
        fn f(a: u8, b: u8) {
          r: u8;
          out: &out u8;
          entry:
            out = &out r;
            call $u8_mul(copy a, copy b, move out);
            return
        }
        ",
    );
    assert_contains(&ll, "= mul i8");
}

#[test]
fn i64_and_or_xor_lower_to_bitwise() {
    let ll = ll_of(
        "
        fn f(a: i64, b: i64) {
          r: i64;
          out: &out i64;
          entry:
            out = &out r;
            call $i64_and(copy a, copy b, move out);
            call $i64_or(copy a, copy b, move out);
            call $i64_xor(copy a, copy b, move out);
            return
        }
        ",
    );
    assert_contains(&ll, "= and i64");
    assert_contains(&ll, "= or i64");
    assert_contains(&ll, "= xor i64");
}

#[test]
fn i32_shr_uses_ashr_but_u32_shr_uses_lshr() {
    let ll = ll_of(
        "
        fn f(a: i32, b: i32, c: u32, d: u32) {
          r_signed: i32;
          out_signed: &out i32;
          r_unsigned: u32;
          out_unsigned: &out u32;
          entry:
            out_signed = &out r_signed;
            call $i32_shr(copy a, copy b, move out_signed);
            out_unsigned = &out r_unsigned;
            call $u32_shr(copy c, copy d, move out_unsigned);
            return
        }
        ",
    );
    assert_contains(&ll, "= ashr i32");
    assert_contains(&ll, "= lshr i32");
}

#[test]
fn i32_div_uses_sdiv_but_u32_div_uses_udiv() {
    let ll = ll_of(
        "
        fn f(a: i32, b: i32, c: u32, d: u32) {
          r_signed: i32;
          out_signed: &out i32;
          r_unsigned: u32;
          out_unsigned: &out u32;
          entry:
            out_signed = &out r_signed;
            call $i32_div(copy a, copy b, move out_signed);
            out_unsigned = &out r_unsigned;
            call $u32_div(copy c, copy d, move out_unsigned);
            return
        }
        ",
    );
    assert_contains(&ll, "= sdiv i32");
    assert_contains(&ll, "= udiv i32");
}

#[test]
fn i64_rem_lowers_to_srem() {
    let ll = ll_of(
        "
        fn f(a: i64, b: i64) {
          r: i64;
          out: &out i64;
          entry:
            out = &out r;
            call $i64_rem(copy a, copy b, move out);
            return
        }
        ",
    );
    assert_contains(&ll, "= srem i64");
}

#[test]
fn f64_sub_div_neg_lower_correctly() {
    let ll = ll_of(
        "
        fn f(a: f64, b: f64) {
          r: f64;
          out: &out f64;
          entry:
            out = &out r;
            call $f64_sub(copy a, copy b, move out);
            call $f64_div(copy a, copy b, move out);
            call $f64_neg(copy a, move out);
            return
        }
        ",
    );
    assert_contains(&ll, "= fsub double");
    assert_contains(&ll, "= fdiv double");
    assert_contains(&ll, "= fneg double");
}

#[test]
fn f32_arithmetic_uses_float_type() {
    let ll = ll_of(
        "
        fn f(a: f32, b: f32) {
          r: f32;
          out: &out f32;
          entry:
            out = &out r;
            call $f32_add(copy a, copy b, move out);
            call $f32_mul(copy a, copy b, move out);
            return
        }
        ",
    );
    assert_contains(&ll, "= fadd float");
    assert_contains(&ll, "= fmul float");
}

#[test]
fn i32_to_i64_lowers_to_sext() {
    let ll = ll_of(
        "
        fn f(x: i32) {
          y: i64;
          out: &out i64;
          entry:
            out = &out y;
            call $i32_to_i64(copy x, move out);
            return
        }
        ",
    );
    assert_contains(&ll, "= sext i32");
    assert_contains(&ll, " to i64");
}

#[test]
fn u32_to_u64_lowers_to_zext() {
    let ll = ll_of(
        "
        fn f(x: u32) {
          y: u64;
          out: &out u64;
          entry:
            out = &out y;
            call $u32_to_u64(copy x, move out);
            return
        }
        ",
    );
    assert_contains(&ll, "= zext i32");
    assert_contains(&ll, " to i64");
}

#[test]
fn i64_to_i32_lowers_to_trunc() {
    let ll = ll_of(
        "
        fn f(x: i64) {
          y: i32;
          out: &out i32;
          entry:
            out = &out y;
            call $i64_to_i32(copy x, move out);
            return
        }
        ",
    );
    assert_contains(&ll, "= trunc i64");
    assert_contains(&ll, " to i32");
}

#[test]
fn i64_to_f64_uses_sitofp() {
    let ll = ll_of(
        "
        fn f(x: i64) {
          y: f64;
          out: &out f64;
          entry:
            out = &out y;
            call $i64_to_f64(copy x, move out);
            return
        }
        ",
    );
    assert_contains(&ll, "= sitofp i64");
    assert_contains(&ll, " to double");
}

#[test]
fn f64_to_u32_uses_fptoui() {
    let ll = ll_of(
        "
        fn f(x: f64) {
          y: u32;
          out: &out u32;
          entry:
            out = &out y;
            call $f64_to_u32(copy x, move out);
            return
        }
        ",
    );
    assert_contains(&ll, "= fptoui double");
    assert_contains(&ll, " to i32");
}

#[test]
fn f32_to_f64_uses_fpext() {
    let ll = ll_of(
        "
        fn f(x: f32) {
          y: f64;
          out: &out f64;
          entry:
            out = &out y;
            call $f32_to_f64(copy x, move out);
            return
        }
        ",
    );
    assert_contains(&ll, "= fpext float");
}

#[test]
fn bool_to_i32_uses_zext_from_i1() {
    let ll = ll_of(
        "
        fn f(b: bool) {
          y: i32;
          out: &out i32;
          entry:
            out = &out y;
            call $bool_to_i32(copy b, move out);
            return
        }
        ",
    );
    assert_contains(&ll, "= zext i1");
    assert_contains(&ll, " to i32");
}

#[test]
fn i32_clz_calls_llvm_ctlz_with_zero_undef_false() {
    let ll = ll_of(
        "
        fn f(x: i32) {
          y: i32;
          out: &out i32;
          entry:
            out = &out y;
            call $i32_clz(copy x, move out);
            return
        }
        ",
    );
    // The declare line lists the extra i1 arg; the call passes false.
    assert_contains(&ll, "declare i32 @llvm.ctlz.i32(i32, i1)");
    assert_contains(&ll, "call i32 @llvm.ctlz.i32(i32");
    assert_contains(&ll, ", i1 false)");
}

#[test]
fn f64_sqrt_calls_llvm_sqrt() {
    let ll = ll_of(
        "
        fn f(x: f64) {
          y: f64;
          out: &out f64;
          entry:
            out = &out y;
            call $f64_sqrt(copy x, move out);
            return
        }
        ",
    );
    assert_contains(&ll, "declare double @llvm.sqrt.double(double)");
    assert_contains(&ll, "call double @llvm.sqrt.double(double");
}

// ---------- The entry point ----------

#[test]
fn silica_main_is_renamed_in_definition() {
    let ll = ll_of("fn main() { entry: return }");
    assert_contains(&ll, "define void @silica.main()");
    // The unqualified `main` symbol should only appear as the C-level
    // wrapper.
    assert!(
        !ll.contains("define void @main("),
        "Silica main should be renamed away from @main:\n{}",
        ll
    );
}

#[test]
fn user_fn_named_something_else_is_not_renamed() {
    let ll = ll_of("fn foo() { entry: return }");
    assert_contains(&ll, "define void @foo()");
    // No wrapper because there's no `main`.
    assert!(
        !ll.contains("define i32 @main()"),
        "no wrapper should be emitted when program has no main:\n{}",
        ll
    );
}

#[test]
fn void_main_wrapper_returns_zero() {
    let ll = ll_of("fn main() { entry: return }");
    assert_contains(&ll, "define i32 @main()");
    assert_contains(&ll, "call void @silica.main()");
    assert_contains(&ll, "ret i32 0");
}

#[test]
fn void_main_wrapper_does_not_alloca() {
    let ll = ll_of("fn main() { entry: return }");
    // The void wrapper has no state — just call + ret.
    let wrapper_start = ll.find("define i32 @main()").unwrap();
    let wrapper_end = ll[wrapper_start..].find("\n}").unwrap() + wrapper_start;
    let wrapper = &ll[wrapper_start..wrapper_end];
    assert!(
        !wrapper.contains("alloca"),
        "void main wrapper should not alloca:\n{}",
        wrapper
    );
}

#[test]
fn out_i32_main_wrapper_returns_loaded_value() {
    let ll = ll_of(
        "
        fn main(exit: &out i32) {
          entry:
            exit.* = 42i32;
            return
        }
        ",
    );
    // Signature has one ptr param (the &out).
    assert_contains(&ll, "define void @silica.main(ptr");
    // Wrapper: alloca + store 0 default + call + load + ret.
    assert_contains(&ll, "%exit = alloca i32, align 4");
    assert_contains(&ll, "store i32 0, ptr %exit");
    assert_contains(&ll, "call void @silica.main(ptr %exit)");
    assert_contains(&ll, "%code = load i32, ptr %exit");
    assert_contains(&ll, "ret i32 %code");
}

#[test]
fn snapshot_void_main_full_ir() {
    assert_eq!(
        ll_of("fn main() { entry: return }").trim(),
        "\
; Generated from Silica-MIR
declare void @abort()

define void @silica.main() {
.init:
  br label %entry
entry:
  ret void
}

define i32 @main() {
  call void @silica.main()
  ret i32 0
}"
    );
}

#[test]
fn snapshot_out_i32_main_full_ir() {
    assert_eq!(
        ll_of(
            "
            fn main(exit: &out i32) {
              entry:
                exit.* = 7i32;
                return
            }
            "
        )
        .trim(),
        "\
; Generated from Silica-MIR
declare void @abort()

define void @silica.main(ptr %arg.exit) {
.init:
  %local.exit = alloca ptr, align 8
  store ptr %arg.exit, ptr %local.exit
  br label %entry
entry:
  %t.0 = load ptr, ptr %local.exit
  store i32 7, ptr %t.0
  ret void
}

define i32 @main() {
  %exit = alloca i32, align 4
  store i32 0, ptr %exit
  call void @silica.main(ptr %exit)
  %code = load i32, ptr %exit
  ret i32 %code
}"
    );
}

// ---------- Places ----------

#[test]
fn field_read_uses_gep() {
    let ll = ll_of(
        "
        struct P { x: i64 y: i64 }
        fn f(p: P) {
          n: i64;
          entry:
            n = copy p.y;
            return
        }
        ",
    );
    assert_contains(&ll, "getelementptr %P, ptr %local.p, i32 0, i32 1");
}

#[test]
fn field_write_uses_gep() {
    let ll = ll_of(
        "
        struct P { x: i64 y: i64 }
        fn f() {
          p: P;
          entry:
            p.x = 7;
            return
        }
        ",
    );
    assert_contains(&ll, "getelementptr %P, ptr %local.p, i32 0, i32 0");
    assert_contains(&ll, "store i64 7, ptr %t.0");
}

#[test]
fn deref_read_loads_pointer_then_pointee() {
    let ll = ll_of(
        "
        fn f(r: &i64) {
          x: i64;
          entry:
            x = copy r.*;
            return
        }
        ",
    );
    // First load: obtain the pointee's address from the ref slot.
    assert_contains(&ll, "load ptr, ptr %local.r");
    // Second load: obtain the pointee's value.
    assert_contains(&ll, "load i64, ptr %t.0");
}

#[test]
fn deref_write_stores_via_loaded_ptr() {
    let ll = ll_of(
        "
        fn f(r: &mut i64) {
          entry:
            r.* = 99;
            return
        }
        ",
    );
    assert_contains(&ll, "load ptr, ptr %local.r");
    assert_contains(&ll, "store i64 99, ptr %t.0");
}

#[test]
fn ref_stores_place_address() {
    let ll = ll_of(
        "
        fn f() {
          x: i64;
          r: &i64;
          entry:
            x = 0;
            r = &x;
            return
        }
        ",
    );
    assert_contains(&ll, "store ptr %local.x, ptr %local.r");
}

#[test]
fn all_ref_kinds_lower_to_ptr() {
    let ll = ll_of(
        "
        fn f() {
          x: i64;
          a: &i64;
          b: &mut i64;
          c: &out i64;
          d: &drop i64;
          e: &uninit i64;
          entry:
            x = 0;
            a = &x;
            b = &mut x;
            return
        }
        ",
    );
    assert_contains(&ll, "%local.a = alloca ptr");
    assert_contains(&ll, "%local.b = alloca ptr");
    assert_contains(&ll, "%local.c = alloca ptr");
    assert_contains(&ll, "%local.d = alloca ptr");
    assert_contains(&ll, "%local.e = alloca ptr");
}

// ---------- Terminators ----------

#[test]
fn goto_emits_br_label() {
    let ll = ll_of(
        "
        fn f() {
          entry: goto next
          next: return
        }
        ",
    );
    assert_contains(&ll, "br label %next");
}

#[test]
fn branch_emits_br_i1() {
    let ll = ll_of(
        "
        fn f(b: bool) {
          entry:
            branch(copy b) [true: t, false: fbr]
          t: return
          fbr: return
        }
        ",
    );
    assert_contains(&ll, "br i1 %t.0, label %t, label %fbr");
}

#[test]
fn abort_calls_abort_then_unreachable() {
    let ll = ll_of("fn f() { entry: abort }");
    assert_contains(&ll, "call void @abort()");
    assert_contains(&ll, "unreachable");
}

#[test]
fn unreachable_lowers_directly() {
    let ll = ll_of("fn f() { entry: unreachable }");
    assert_contains(&ll, "unreachable");
    assert!(
        !ll.contains("call void @abort()"),
        "unreachable shouldn't call abort:\n{}",
        ll
    );
}

// ---------- Sizes and alignments ----------

fn env_of(src: &str) -> IndexedProgram {
    IndexedProgram::build(&parse(src)).0
}

#[test]
fn scalar_sizes() {
    let env = env_of("fn f() { entry: return }");
    assert_eq!(size_of(&i64_ty(), &env), 8);
    assert_eq!(size_of(&bool_ty(), &env), 1);
    assert_eq!(size_of(&unit_ty(), &env), 0);
    assert_eq!(size_of(&never_ty(), &env), 0);
}

#[test]
fn scalar_alignments() {
    let env = env_of("fn f() { entry: return }");
    assert_eq!(align_of(&i64_ty(), &env), 8);
    assert_eq!(align_of(&bool_ty(), &env), 1);
    assert_eq!(align_of(&unit_ty(), &env), 1);
    assert_eq!(align_of(&never_ty(), &env), 1);
}

#[test]
fn all_ref_kinds_and_fn_are_pointer_sized() {
    let env = env_of("fn f() { entry: return }");
    let inner = i64_ty();
    for kind in [
        RefKind::Shared,
        RefKind::Mut,
        RefKind::Out,
        RefKind::Drop,
        RefKind::Uninit,
    ] {
        let ty = ref_ty(kind, inner.clone());
        assert_eq!(size_of(&ty, &env), 8);
        assert_eq!(align_of(&ty, &env), 8);
    }
    let fn_ty = fn_ty(vec![i64_ty(), bool_ty()]);
    assert_eq!(size_of(&fn_ty, &env), 8);
    assert_eq!(align_of(&fn_ty, &env), 8);
}

#[test]
fn empty_struct_is_zero_sized() {
    let env = env_of("struct S { } fn f() { entry: return }");
    let ty = custom_ty("S");
    assert_eq!(size_of(&ty, &env), 0);
    assert_eq!(align_of(&ty, &env), 1);
}

#[test]
fn homogeneous_struct_sums_field_sizes() {
    let env = env_of("struct P { x: i64 y: i64 } fn f() { entry: return }");
    let ty = custom_ty("P");
    assert_eq!(size_of(&ty, &env), 16);
    assert_eq!(align_of(&ty, &env), 8);
}

#[test]
fn struct_pads_between_smaller_then_larger_field() {
    // b:bool at offset 0 (size 1), then x:i64 aligned to 8 → offset 8;
    // total = 8 + 8 = 16, rounded to align 8.
    let env = env_of("struct P { b: bool x: i64 } fn f() { entry: return }");
    let ty = custom_ty("P");
    assert_eq!(size_of(&ty, &env), 16);
    assert_eq!(align_of(&ty, &env), 8);
}

#[test]
fn struct_rounds_up_trailing_padding_to_alignment() {
    // x:i64 at offset 0 (size 8), b:bool at offset 8 (size 1);
    // total 9, rounded to align 8 → 16.
    let env = env_of("struct P { x: i64 b: bool } fn f() { entry: return }");
    let ty = custom_ty("P");
    assert_eq!(size_of(&ty, &env), 16);
}

#[test]
fn packed_bool_only_struct_is_tightly_packed() {
    // Three bools, all align 1: no padding.
    let env = env_of(
        "struct P { a: bool b: bool c: bool } fn f() { entry: return }",
    );
    let ty = custom_ty("P");
    assert_eq!(size_of(&ty, &env), 3);
    assert_eq!(align_of(&ty, &env), 1);
}

#[test]
fn nested_struct_inherits_alignment() {
    let env = env_of(
        "
        struct Inner { x: i64 }
        struct Outer { i: Inner b: bool }
        fn f() { entry: return }
        ",
    );
    let ty = custom_ty("Outer");
    // Inner is 8 bytes, align 8. Outer: Inner @ 0..8, bool @ 8; total 9
    // rounded to 8 → 16.
    assert_eq!(size_of(&ty, &env), 16);
    assert_eq!(align_of(&ty, &env), 8);
}

#[test]
fn struct_with_reference_field_uses_pointer_size() {
    let env = env_of("struct S { r: &mut i64 x: bool } fn f() { entry: return }");
    let ty = custom_ty("S");
    // r at 0..8 (align 8), b at 8; total 9 → 16.
    assert_eq!(size_of(&ty, &env), 16);
    assert_eq!(align_of(&ty, &env), 8);
}

#[test]
fn enum_with_unit_only_variants_is_discriminant_only() {
    let env = env_of("enum E { A: unit B: unit } fn f() { entry: return }");
    let ty = custom_ty("E");
    // {i16, [0 x i8]} align 2 → size 2.
    assert_eq!(size_of(&ty, &env), 2);
    assert_eq!(align_of(&ty, &env), 2);
}

#[test]
fn enum_with_number_payload_pads_disc_to_8() {
    let env = env_of("enum E { A: i64 B: unit } fn f() { entry: return }");
    let ty = custom_ty("E");
    // disc:i16 at 0..2, padded to 8 for i64-aligned payload; payload 8;
    // total 16, align 8.
    assert_eq!(size_of(&ty, &env), 16);
    assert_eq!(align_of(&ty, &env), 8);
}

#[test]
fn enum_size_is_dominated_by_largest_variant_payload() {
    let env = env_of(
        "
        struct Big { a: i64 b: i64 c: i64 }
        enum E { Small: i64 Wide: Big }
        fn f() { entry: return }
        ",
    );
    let ty = custom_ty("E");
    // Big is 24 bytes align 8. Enum: disc padded to 8, +24 payload = 32.
    assert_eq!(size_of(&ty, &env), 32);
    assert_eq!(align_of(&ty, &env), 8);
}

#[test]
fn enum_with_only_bool_payloads_is_align_2() {
    let env = env_of("enum E { A: bool B: unit } fn f() { entry: return }");
    let ty = custom_ty("E");
    // disc:i16 at 0..2, bool at offset 2 (align 1) size 1, total 3,
    // rounded to align 2 = 4.
    assert_eq!(size_of(&ty, &env), 4);
    assert_eq!(align_of(&ty, &env), 2);
}

#[test]
fn enum_with_ref_payload_is_pointer_aligned() {
    let env = env_of("enum E { A: &mut i64 B: unit } fn f() { entry: return }");
    let ty = custom_ty("E");
    // disc padded to 8, +8 pointer = 16, align 8.
    assert_eq!(size_of(&ty, &env), 16);
    assert_eq!(align_of(&ty, &env), 8);
}

// ---------- Types that hold themselves behind a pointer ----------

#[test]
fn plain_struct_ok() {
    let src = "
        struct P { x: i64 y: i64 }
        fn f() { entry: return }
        ";
    assert_no_diagnostics(src);
    let env = env_of(src);
    assert!(layout_of(&custom_ty("P"), &env).is_some());
}

#[test]
fn struct_referencing_itself_by_reference_ok() {
    // The referent is behind a pointer of bounded size — no infinite layout.
    let src = "
        struct Node { next: &mut Node }
        fn f() { entry: return }
        ";
    assert_no_diagnostics(src);
    let env = env_of(src);
    assert!(layout_of(&custom_ty("Node"), &env).is_some());
}

#[test]
fn enum_variant_referencing_itself_by_reference_ok() {
    let src = "
        enum List { Nil: unit Cons: &mut List }
        fn f() { entry: return }
        ";
    assert_no_diagnostics(src);
    let env = env_of(src);
    assert!(layout_of(&custom_ty("List"), &env).is_some());
}

#[test]
fn mutually_referencing_via_references_ok() {
    let src = "
        struct A { b: &mut B }
        struct B { a: &mut A }
        fn f() { entry: return }
        ";
    assert_no_diagnostics(src);
    let env = env_of(src);
    assert!(layout_of(&custom_ty("A"), &env).is_some());
    assert!(layout_of(&custom_ty("B"), &env).is_some());
}

#[test]
fn struct_holding_fn_of_self_is_ok() {
    // fn types lower to pointers — no infinite size, so allowed.
    let src = "
        struct S { f: fn(S) }
        fn f() { entry: return }
        ";
    assert_no_diagnostics(src);
    let env = env_of(src);
    assert!(layout_of(&custom_ty("S"), &env).is_some());
}

// ---------- Blocks that nothing leads to ----------

#[test]
fn single_block_is_reachable() {
    assert_no_diagnostics("fn f() { entry: return }");
}

#[test]
fn goto_chain_all_reachable() {
    assert_no_diagnostics(
        "
        fn f() {
          entry:
            goto middle
          middle:
            goto end
          end:
            return
        }
        ",
    );
}

#[test]
fn branch_both_arms_reachable() {
    assert_no_diagnostics(
        "
        fn f(b: bool) {
          entry:
            branch(copy b) [true: t, false: fbr]
          t: return
          fbr: return
        }
        ",
    );
}

#[test]
fn switch_enum_arms_reachable() {
    assert_no_diagnostics(
        "
        enum Copy Drop Option { None: unit Some: i64 }
        fn f(o: Option) {
          entry:
            switchEnum(o) [None: n, Some: s]
          n: return
          s: return
        }
        ",
    );
}

#[test]
fn loop_body_reachable_via_backedge() {
    assert_no_diagnostics(
        "
        fn f(b: bool) {
          entry:
            goto head
          head:
            branch(copy b) [true: head, false: done]
          done:
            return
        }
        ",
    );
}

#[test]
fn isolated_block_is_unreachable() {
    let (errs, warns) = run("
        fn f() {
          entry:
            return
          dead:
            return
        }
        ");
    assert!(errs.is_empty(), "unexpected errors: {:?}", errs);
    assert_warnings_contain(
        &warns,
        &["In function 'f': block 'dead' is unreachable from entry"],
    );
}

#[test]
fn multiple_unreachable_blocks_each_reported() {
    let (errs, warns) = run("
        fn f() {
          entry:
            return
          dead1:
            goto dead2
          dead2:
            return
        }
        ");
    assert!(errs.is_empty(), "unexpected errors: {:?}", errs);
    assert_warnings_contain(
        &warns,
        &[
            "block 'dead1' is unreachable",
            "block 'dead2' is unreachable",
        ],
    );
}

#[test]
fn unreachable_terminator_still_yields_reachable_block() {
    // A block terminated by `unreachable` is still reachable if the entry
    // points to it — we only care about *predecessors*, not what the block
    // does at its end.
    assert_no_diagnostics(
        "
        fn f() {
          entry:
            goto dead
          dead:
            unreachable
        }
        ",
    );
}

#[test]
fn abort_and_return_prune_successors() {
    // `abort` and `return` have no successors — anything only reachable
    // through such a block is dead.
    let (errs, warns) = run("
        fn f() {
          entry:
            abort
          orphan:
            return
        }
        ");
    assert!(errs.is_empty(), "unexpected errors: {:?}", errs);
    assert_warnings_contain(&warns, &["block 'orphan' is unreachable"]);
}

#[test]
fn warning_carries_label_span() {
    // The warning's `at L:C:` points at the dead block's label, not entry.
    // With this exact source, `dead:` sits on line 4, col 1.
    let src = "fn f() {\nentry:\nreturn\ndead:\nreturn\n}";
    let (_, warns) = run(src);
    assert_warnings_contain(&warns, &["at 4:1:", "block 'dead' is unreachable"]);
}

// ---------- Copies in place of moves ----------

fn elaborate_source(source: &str) -> Program {
    let mut program = parse(source);
    let (env, errors) = IndexedProgram::build(&program);
    assert!(errors.is_empty(), "environment errors: {errors:?}");
    copy_relaxation::elaborate(&mut program, &env);
    program
}

fn call_arg<'a>(program: &'a Program, function: &str, statement: usize) -> &'a Operand {
    let body = find_fn(program, function).body.as_ref().unwrap();
    let StatementKind::Call(_, args) = &body.blocks[0].statements[statement].kind else {
        panic!("expected call statement");
    };
    &args[0]
}

fn call_arg_in_block<'a>(
    program: &'a Program,
    function: &str,
    block_label: &str,
    statement: usize,
) -> &'a Operand {
    let body = find_fn(program, function).body.as_ref().unwrap();
    let block = body.blocks.iter().find(|block| block.label == block_label).unwrap();
    let StatementKind::Call(_, args) = &block.statements[statement].kind else {
        panic!("expected call statement");
    };
    &args[0]
}

#[test]
fn relaxes_an_earlier_copyable_move_but_keeps_the_last_move() {
    let program = elaborate_source(
        "
        extern fn consume(x: i64);
        fn f(x: i64) {
          entry:
            call consume(move x);
            call consume(move x);
            return
        }
        ",
    );
    assert!(matches!(call_arg(&program, "f", 0), Operand::Copy(Place::Var(x)) if x == "x"));
    assert!(matches!(call_arg(&program, "f", 1), Operand::Move(Place::Var(x)) if x == "x"));
}

#[test]
fn preserves_a_move_when_only_a_sibling_field_is_later_used() {
    let program = elaborate_source(
        "
        struct Pair: Move { left: i64 right: i64 }
        extern fn consume(x: i64);
        fn f(p: Pair) {
          entry:
            call consume(move p.left);
            call consume(move p.right);
            return
        }
        ",
    );
    assert!(matches!(call_arg(&program, "f", 0), Operand::Move(_)));
}

#[test]
fn relaxes_a_move_needed_on_a_successor_path() {
    let program = elaborate_source(
        "
        extern fn consume(x: i64);
        fn f(b: bool, x: i64) {
          entry:
            call consume(move x);
            branch(copy b) [true: use_x, false: done]
          use_x:
            call consume(move x);
            goto done
          done:
            return
        }
        ",
    );
    assert!(matches!(call_arg(&program, "f", 0), Operand::Copy(Place::Var(x)) if x == "x"));
}

#[test]
fn relaxes_a_move_needed_on_a_loop_back_edge() {
    let program = elaborate_source(
        "
        extern fn consume(x: i64);
        fn f(b: bool, x: i64) {
          entry:
            goto loop
          loop:
            call consume(move x);
            branch(copy b) [true: loop, false: done]
          done:
            return
        }
        ",
    );
    assert!(matches!(
        call_arg_in_block(&program, "f", "loop", 0),
        Operand::Copy(Place::Var(x)) if x == "x"
    ));
}

#[test]
fn reads_in_indexes_are_decided() {
    let src = "
        fn f(a: [i64; 4], b: [i64; 4], m: [[i64; 2]; 2], i: i64, j: i64, k: i64) {
          x: i64;
          r: & i64;
          entry:
            x = copy a[take i];
            b[take i] = copy a[take j];
            x = copy a[copy b[take j]];
            r = & a[take k];
            x = copy m[take k][take k];
            return
        }
        ";
    let program = elaborate_source(src);
    let body = find_fn(&program, "f").body.as_ref().unwrap();
    let lines: Vec<String> = body.blocks[0].statements.iter().map(statement_text).collect();
    assert_eq!(
        lines,
        [
            "x = copy a[copy i];",
            "b[move i] = copy a[copy j];",
            "x = copy a[copy b[move j]];",
            "r = & a[copy k];",
            "x = copy m[copy k][move k];",
        ]
    );

    let open = IndexedProgram::build(&parse(src)).0;
    assert!(try_monomorphize(&open, 100).is_none());
    let decided = IndexedProgram::build(&program).0;
    assert!(try_monomorphize(&decided, 100).is_some());

    let mut again = parse(src);
    let env = IndexedProgram::build(&again).0;
    copy_relaxation::elaborate(&mut again, &env);
    let once = program_text(&again);
    copy_relaxation::elaborate(&mut again, &env);
    assert_eq!(program_text(&again), once);
}

#[test]
fn reads_in_the_indexes_of_every_place_are_decided() {
    let program = elaborate_source(
        "
        fn f(a: [i64; 4], i: i64, j: i64) {
          entry:
            drop a[take i];
            require_uninit a[take i];
            unborrow a[take j];
            return
        }
        ",
    );
    let body = find_fn(&program, "f").body.as_ref().unwrap();
    let lines: Vec<String> = body.blocks[0].statements.iter().map(statement_text).collect();
    assert_eq!(
        lines,
        ["drop a[move i];", "require_uninit a[move i];", "unborrow a[move j];"]
    );
}

#[test]
fn uses_declared_copy_class_for_custom_types() {
    let program = elaborate_source(
        "
        struct Token: Copy + Drop { value: i64 }
        extern fn consume(x: Token);
        fn f(x: Token) {
          entry:
            call consume(move x);
            call consume(move x);
            return
        }
        ",
    );
    assert!(matches!(call_arg(&program, "f", 0), Operand::Copy(Place::Var(x)) if x == "x"));
}

#[test]
fn does_not_copy_an_exclusive_reference() {
    let program = elaborate_source(
        "
        extern fn consume(r: &mut i64);
        fn f(r: &mut i64) {
          entry:
            call consume(move r);
            call consume(move r);
            return
        }
        ",
    );
    assert!(matches!(call_arg(&program, "f", 0), Operand::Move(Place::Var(r)) if r == "r"));
}

#[test]
fn does_not_preserve_a_value_for_an_out_borrow() {
    let program = elaborate_source(
        "
        extern fn consume(x: i64);
        extern fn finish(r: &out i64);
        fn f(x: i64) {
          r: &out i64;
          entry:
            call consume(move x);
            r = &out x;
            r.* = 1;
            call finish(move r);
            return
        }
        ",
    );
    assert!(matches!(call_arg(&program, "f", 0), Operand::Move(Place::Var(x)) if x == "x"));
}

#[test]
fn out_borrow_reinitialization_kills_loop_carried_demand() {
    let program = elaborate_source(
        "
        extern fn fill(r: &out i64);
        extern fn consume(x: i64);
        fn f(again: bool, x: i64) {
          r: &out i64;
          entry:
            goto loop
          loop:
            r = &out x;
            call fill(move r);
            call consume(move x);
            branch(copy again) [true: loop, false: done]
          done:
            return
        }
        ",
    );
    assert!(matches!(
        call_arg_in_block(&program, "f", "loop", 2),
        Operand::Move(Place::Var(x)) if x == "x"
    ));
}

#[test]
fn out_borrow_of_a_field_blocks_aggregate_preservation() {
    let program = elaborate_source(
        "
        struct Pair: Copy + Drop { left: i64 right: i64 }
        extern fn take_pair(p: Pair);
        fn f(p: Pair) {
          r: &out i64;
          entry:
            call take_pair(move p);
            r = &out p.left;
            r.* = 1;
            call take_pair(move p);
            return
        }
        ",
    );
    assert!(matches!(call_arg(&program, "f", 0), Operand::Move(Place::Var(p)) if p == "p"));
}

#[test]
fn elaboration_is_idempotent() {
    let mut program = parse("
        extern fn consume(x: i64);
        fn f(x: i64) {
          entry:
            call consume(move x);
            call consume(move x);
            return
        }
        ");
    let (env, errors) = IndexedProgram::build(&program);
    assert!(errors.is_empty(), "environment errors: {errors:?}");

    copy_relaxation::elaborate(&mut program, &env);
    let once = program.clone();
    copy_relaxation::elaborate(&mut program, &env);
    assert_eq!(program, once);
}

// ---------- Loans ----------

#[test]
fn mut_loan_blocks_direct_write() {
    let (errs, _) = run("
        extern fn sink(r: &mut i64);
        fn f(x: i64) {
          r: &mut i64;
          entry:
            r = &mut x;
            x = 1;
            call sink(move r);
            return
        }
        ");
    assert_errors_contain(&errs, &["cannot write to 'x': already borrowed by 'r'"]);
}

#[test]
fn mut_loan_blocks_direct_read() {
    let (errs, _) = run("
        extern fn sink(r: &mut i64);
        fn f(x: i64) {
          r: &mut i64;
          y: i64;
          entry:
            r = &mut x;
            y = copy x;
            call sink(move r);
            return
        }
        ");
    assert_errors_contain(&errs, &["cannot read 'x': already borrowed by 'r'"]);
}

#[test]
fn mut_loan_blocks_direct_move() {
    let (errs, _) = run("
        extern fn sink(r: &mut i64);
        extern fn use_num(y: i64);
        fn f(x: i64) {
          r: &mut i64;
          entry:
            r = &mut x;
            call use_num(move x);
            call sink(move r);
            return
        }
        ");
    assert_errors_contain(&errs, &["cannot move from 'x': already borrowed by 'r'"]);
}

#[test]
fn shared_loan_permits_read_ok() {
    assert_no_diagnostics(
        "
        fn f(x: i64) {
          r: &i64;
          y: i64;
          entry:
            r = &x;
            y = copy x;
            return
        }
        ",
    );
}

#[test]
fn shared_loan_permits_shared_reborrow_ok() {
    assert_no_diagnostics(
        "
        fn f(x: i64) {
          r: &i64;
          s: &i64;
          entry:
            r = &x;
            s = &x;
            return
        }
        ",
    );
}

#[test]
fn shared_loan_blocks_write() {
    // r kept alive through the conflicting write via a downstream use;
    // without it, NLL would close the loan before the write and there'd
    // be no conflict.
    let (errs, _) = run("
        extern fn read_ref(r: &i64);
        fn f(x: i64) {
          r: &i64;
          entry:
            r = &x;
            x = 1;
            call read_ref(move r);
            return
        }
        ");
    assert_errors_contain(&errs, &["cannot write to 'x': already borrowed by 'r'"]);
}

#[test]
fn shared_loan_blocks_move() {
    let (errs, _) = run("
        extern fn take(y: i64);
        extern fn read_ref(r: &i64);
        fn f(x: i64) {
          r: &i64;
          entry:
            r = &x;
            call take(move x);
            call read_ref(move r);
            return
        }
        ");
    assert_errors_contain(&errs, &["cannot move from 'x': already borrowed by 'r'"]);
}

#[test]
fn shared_loan_blocks_mut_reborrow() {
    let (errs, _) = run("
        extern fn read_ref(r: &i64);
        extern fn use_mut(r: &mut i64);
        fn f(x: i64) {
          r: &i64;
          s: &mut i64;
          entry:
            r = &x;
            s = &mut x;
            call read_ref(move r);
            call use_mut(move s);
            return
        }
        ");
    assert_errors_contain(
        &errs,
        &["cannot borrow as &mut 'x': already borrowed by 'r'"],
    );
}

#[test]
fn mut_loan_blocks_shared_reborrow() {
    let (errs, _) = run("
        extern fn sink(r: &mut i64);
        fn f(x: i64) {
          r: &mut i64;
          s: &i64;
          entry:
            r = &mut x;
            s = &x;
            call sink(move r);
            return
        }
        ");
    assert_errors_contain(&errs, &["cannot borrow as & 'x': already borrowed by 'r'"]);
}

#[test]
fn mut_loan_blocks_mut_reborrow() {
    let (errs, _) = run("
        extern fn sink(r: &mut i64);
        fn f(x: i64) {
          r: &mut i64;
          s: &mut i64;
          entry:
            r = &mut x;
            s = &mut x;
            call sink(move r);
            return
        }
        ");
    assert_errors_contain(
        &errs,
        &["cannot borrow as &mut 'x': already borrowed by 'r'"],
    );
}

#[test]
fn access_ok_after_borrower_moved_to_call() {
    assert_no_diagnostics(
        "
        extern fn sink(r: &mut i64);
        fn f(x: i64) {
          r: &mut i64;
          entry:
            r = &mut x;
            call sink(move r);
            x = 1;
            return
        }
        ",
    );
}

#[test]
fn disjoint_field_borrows_ok() {
    assert_no_diagnostics(
        "
        struct Copy Drop P { a: i64 b: i64 }
        extern fn sink(r: &mut i64);
        fn f(p: P) {
          r: &mut i64;
          y: i64;
          entry:
            r = &mut p.a;
            y = copy p.b;
            call sink(move r);
            return
        }
        ",
    );
}

#[test]
fn same_field_borrow_conflicts() {
    let (errs, _) = run("
        struct Copy Drop P { a: i64 b: i64 }
        extern fn sink(r: &mut i64);
        fn f(p: P) {
          r: &mut i64;
          y: i64;
          entry:
            r = &mut p.a;
            y = copy p.a;
            call sink(move r);
            return
        }
        ");
    assert_errors_contain(&errs, &["cannot read 'p.a': already borrowed by 'r'"]);
}

#[test]
fn access_to_parent_of_borrowed_field_conflicts() {
    // Borrowing a field freezes the whole path from that field
    // upward — moving the parent p would move the borrowed field.
    let (errs, _) = run("
        struct Copy Drop P { a: i64 b: i64 }
        extern fn sink(r: &mut i64);
        extern fn takep(p: P);
        fn f(p: P) {
          r: &mut i64;
          entry:
            r = &mut p.a;
            call takep(move p);
            call sink(move r);
            return
        }
        ");
    assert_errors_contain(&errs, &["cannot move from 'p': already borrowed by 'r'"]);
}

#[test]
fn read_through_borrower_ok() {
    assert_no_diagnostics(
        "
        fn f(x: i64) {
          r: &mut i64;
          y: i64;
          entry:
            r = &mut x;
            y = copy r.*;
            return
        }
        ",
    );
}

#[test]
fn ref_transfer_carries_obligation_ok() {
    // Moving an &out param to a local: the local inherits the
    // pointee obligation, satisfies it via *z = 42.
    assert_no_diagnostics(
        "
        fn f(x: &out i64) {
          z: &out i64;
          entry:
            z = move x;
            z.* = 42;
            return
        }
        ",
    );
}

#[test]
fn ref_transfer_preserves_loan_conflict() {
    // Local borrower r loans a. Transfer r to s. s still loans a;
    // direct access to a should still conflict.
    let (errs, _) = run("
        extern fn sink(r: &mut i64);
        fn f(a: i64) {
          r: &mut i64;
          s: &mut i64;
          entry:
            r = &mut a;
            s = move r;
            a = 1;
            call sink(move s);
            return
        }
        ");
    assert_errors_contain(&errs, &["cannot write to 'a': already borrowed by 's'"]);
}

#[test]
fn multi_loan_branch_of_borrows_a_or_b_ok() {
    // A branch-of-borrows: after the merge, r loans {a, b}. Both
    // are frozen. Consuming r via a call releases both. Direct
    // access to a or b after that is fine.
    assert_no_diagnostics(
        "
        extern fn sink(r: &mut i64);
        fn f(a: i64, b: i64, c: bool) {
          r: &mut i64;
          entry:
            branch(copy c) [true: t, false: fbr]
          t:
            r = &mut a;
            goto merge
          fbr:
            r = &mut b;
            goto merge
          merge:
            call sink(move r);
            a = 1;
            b = 2;
            return
        }
        ",
    );
}

#[test]
fn multi_loan_conflict_on_a_after_join() {
    // After the merge, r loans {a, b}. Writing directly to `a` is
    // a conflict — r may loan a.
    let (errs, _) = run("
        extern fn sink(r: &mut i64);
        fn f(a: i64, b: i64, c: bool) {
          r: &mut i64;
          entry:
            branch(copy c) [true: t, false: fbr]
          t:
            r = &mut a;
            goto merge
          fbr:
            r = &mut b;
            goto merge
          merge:
            a = 1;
            call sink(move r);
            return
        }
        ");
    assert_errors_contain(&errs, &["cannot write to 'a': already borrowed by 'r'"]);
}

#[test]
fn multi_loan_conflict_on_b_after_join() {
    let (errs, _) = run("
        extern fn sink(r: &mut i64);
        fn f(a: i64, b: i64, c: bool) {
          r: &mut i64;
          entry:
            branch(copy c) [true: t, false: fbr]
          t:
            r = &mut a;
            goto merge
          fbr:
            r = &mut b;
            goto merge
          merge:
            b = 2;
            call sink(move r);
            return
        }
        ");
    assert_errors_contain(&errs, &["cannot write to 'b': already borrowed by 'r'"]);
}

#[test]
fn multi_loan_disjoint_third_place_ok() {
    // r may loan {a, b}, but neither is c. Direct access to c is
    // fine.
    assert_no_diagnostics(
        "
        extern fn sink(r: &mut i64);
        fn f(a: i64, b: i64, c: i64, cond: bool) {
          r: &mut i64;
          entry:
            branch(copy cond) [true: t, false: fbr]
          t:
            r = &mut a;
            goto merge
          fbr:
            r = &mut b;
            goto merge
          merge:
            c = 3;
            call sink(move r);
            return
        }
        ",
    );
}

#[test]
fn out_loan_blocks_direct_write() {
    let (errs, _) = run("
        extern fn take_out(r: &out i64);
        fn f() {
          x: i64;
          r: &out i64;
          entry:
            r = &out x;
            x = 42;
            call take_out(move r);
            return
        }
        ");
    assert_errors_contain(&errs, &["cannot write to 'x': already borrowed by 'r'"]);
}

#[test]
fn drop_loan_blocks_direct_write() {
    let (errs, _) = run("
        extern fn take_drop(r: &drop i64);
        fn f(x: i64) {
          r: &drop i64;
          entry:
            r = &drop x;
            x = 42;
            call take_drop(move r);
            return
        }
        ");
    assert_errors_contain(&errs, &["cannot write to 'x': already borrowed by 'r'"]);
}

#[test]
fn uninit_loan_blocks_direct_write() {
    let (errs, _) = run("
        extern fn take_uninit(r: &uninit i64);
        fn f() {
          x: i64;
          r: &uninit i64;
          entry:
            r = &uninit x;
            x = 42;
            call take_uninit(move r);
            return
        }
        ");
    assert_errors_contain(&errs, &["cannot write to 'x': already borrowed by 'r'"]);
}

#[test]
fn mixed_kind_disjoint_field_loans_ok() {
    // &mut p.a and &out p.b coexist — disjoint fields, kinds are
    // independent for exclusivity purposes.
    assert_no_diagnostics(
        "
        struct Copy Drop P { a: i64 b: i64 }
        extern fn use_mut(r: &mut i64);
        extern fn use_out(r: &out i64);
        fn f() {
          p: P;
          r: &mut i64;
          s: &out i64;
          entry:
            p.a = 1;
            r = &mut p.a;
            s = &out p.b;
            call use_mut(move r);
            call use_out(move s);
            return
        }
        ",
    );
}

#[test]
fn nested_field_ancestor_conflicts() {
    // Borrow p.a.x freezes p.a — reading p.a hits the loan.
    let (errs, _) = run("
        struct Copy Drop Inner { x: i64 y: i64 }
        struct Copy Drop Outer { i: Inner c: i64 }
        extern fn use_mut(r: &mut i64);
        fn f(o: Outer) {
          r: &mut i64;
          y: Inner;
          entry:
            r = &mut o.i.x;
            y = copy o.i;
            call use_mut(move r);
            return
        }
        ");
    assert_errors_contain(&errs, &["cannot read 'o.i': already borrowed by 'r'"]);
}

#[test]
fn nested_field_sibling_ok() {
    // p.a.x and p.a.y are disjoint — borrow of one lets the other be
    // read.
    assert_no_diagnostics(
        "
        struct Copy Drop Inner { x: i64 y: i64 }
        struct Copy Drop Outer { i: Inner c: i64 }
        extern fn use_mut(r: &mut i64);
        fn f(o: Outer) {
          r: &mut i64;
          z: i64;
          entry:
            r = &mut o.i.x;
            z = copy o.i.y;
            call use_mut(move r);
            return
        }
        ",
    );
}

#[test]
fn depth_three_field_sibling_ok_ancestor_conflicts() {
    // Borrowing `o.a.x.z` (depth 3) leaves `o.a.x.w` (sibling at
    // depth 3) readable, but `o.a.x` (ancestor at depth 2) still
    // conflicts. Confirms path-prefix comparison scales past depth 2.
    let (errs, _) = run("
        struct Copy Drop Innermost { z: i64 w: i64 }
        struct Copy Drop Inner { x: Innermost y: Innermost }
        struct Copy Drop Outer { a: Inner b: Inner }
        extern fn sink(r: &mut i64);
        extern fn take_i(i: Innermost);
        fn f(o: Outer) {
          r: &mut i64;
          y: Innermost;
          entry:
            r = &mut o.a.x.z;
            y = copy o.a.x;
            call sink(move r);
            call take_i(move y);
            return
        }
        ");
    assert_errors_contain(&errs, &["cannot read 'o.a.x': already borrowed by 'r'"]);
}

#[test]
fn borrower_overwrite_releases_old_loan_ok() {
    // r first borrows x, then is overwritten to borrow y. After the
    // overwrite, x is no longer loaned — direct write to x is fine.
    assert_no_diagnostics(
        "
        extern fn use_mut(r: &mut i64);
        fn f(x: i64, y: i64) {
          r: &mut i64;
          entry:
            r = &mut x;
            r = &mut y;
            x = 42;
            call use_mut(move r);
            return
        }
        ",
    );
}

#[test]
fn borrower_overwrite_new_loan_active() {
    // After the overwrite, y is loaned. Direct write to y conflicts.
    let (errs, _) = run("
        extern fn use_mut(r: &mut i64);
        fn f(x: i64, y: i64) {
          r: &mut i64;
          entry:
            r = &mut x;
            r = &mut y;
            y = 42;
            call use_mut(move r);
            return
        }
        ");
    assert_errors_contain(&errs, &["cannot write to 'y': already borrowed by 'r'"]);
}

#[test]
fn field_borrower_overwrite_releases_old_loan_ok() {
    // Path-granular version of borrower_overwrite_releases_old_loan_ok:
    // b.p first borrows x, then is overwritten to borrow x2. After
    // the overwrite, x's loan is released — writing to x is legal.
    assert_no_diagnostics(
        "
        struct Move RefBox { p: &mut i64 }
        extern fn take_box(b: RefBox);
        fn f(x: i64, x2: i64) {
          b: RefBox;
          entry:
            b.p = &mut x;
            b.p = &mut x2;
            x = 42;
            call take_box(move b);
            return
        }
        ",
    );
}

#[test]
fn switch_on_loaned_enum_conflicts() {
    // switchEnum(e) is a discriminant read (AccessKind::Read); an
    // exclusive loan on e blocks it.
    let (errs, _) = run("
        enum Copy Drop Sel { A: unit B: unit }
        extern fn sink(r: &mut Sel);
        fn f(e: Sel) {
          r: &mut Sel;
          entry:
            r = &mut e;
            switchEnum(e) [A: a_lbl, B: b_lbl]
          a_lbl:
            call sink(move r);
            return
          b_lbl:
            call sink(move r);
            return
        }
        ");
    assert_errors_contain(&errs, &["cannot read 'e': already borrowed by 'r'"]);
}

#[test]
fn drop_borrower_closes_loan_ok() {
    // `drop r` consumes the borrower — its loan is released and
    // direct access to the previously-loaned place is legal.
    assert_no_diagnostics(
        "
        fn f(x: i64) {
          r: &mut i64;
          entry:
            r = &mut x;
            drop r;
            x = 42;
            return
        }
        ",
    );
}

#[test]
fn drop_deref_does_not_release_loan() {
    // `drop *r` consumes the pointee via r; the borrower r is still
    // live, so its loan on x still blocks direct access.
    let (errs, _) = run("
        extern fn sink(r: &mut i64);
        fn f(x: i64) {
          r: &mut i64;
          entry:
            r = &mut x;
            drop r.*;
            x = 42;
            call sink(move r);
            return
        }
        ");
    assert_errors_contain(&errs, &["cannot write to 'x': already borrowed by 'r'"]);
}

#[test]
fn enum_wrap_of_borrower_keeps_loan_active() {
    // Wrapping a live borrower into an enum variant re-keys the loan
    // from the source to the constructed variant path (e.g. `w as W`),
    // so direct access to the originally-borrowed place still
    // conflicts. Wrap needs `Move` because its payload is Move-only.
    let (errs, _) = run("
        enum Move Wrap { W: &mut i64 }
        extern fn take_wrap(w: Wrap);
        fn f(x: i64) {
          r: &mut i64;
          w: Wrap;
          entry:
            r = &mut x;
            w = Wrap::W(move r);
            x = 7;
            call take_wrap(move w);
            return
        }
        ");
    assert_errors_contain(&errs, &["already borrowed"]);
}

#[test]
fn enum_wrap_of_borrower_consumed_releases_loan() {
    // Positive path: after the enum-wrapped borrower is moved to a
    // callee, direct access to x is legal. Should pass today AND
    // after the loan re-key fix (loan is discharged either way).
    assert_no_diagnostics(
        "
        enum Move Wrap { W: &mut i64 }
        extern fn take_wrap(w: Wrap);
        fn f(x: i64) {
          r: &mut i64;
          w: Wrap;
          entry:
            r = &mut x;
            w = Wrap::W(move r);
            call take_wrap(move w);
            x = 7;
            return
        }
        ",
    );
}

#[test]
fn struct_move_rekeys_field_loan() {
    // Moving a struct whose field holds a borrower re-keys the
    // field's loan onto the parallel path under the target
    // (`a.p` → `b.p`), so direct access to the borrowed place
    // still conflicts.
    let (errs, _) = run("
        struct Move RefBox { p: &mut i64 v: i64 }
        extern fn sink(y: RefBox);
        fn f(x: i64) {
          a: RefBox;
          b: RefBox;
          entry:
            a.p = &mut x;
            a.v = 0;
            b = move a;
            x = 42;
            call sink(move b);
            return
        }
        ");
    assert_errors_contain(&errs, &["already borrowed"]);
}

#[test]
fn downcast_projection_borrow_same_variant_conflicts() {
    let (errs, _) = run("
        enum Copy Drop Option { None: unit Some: i64 }
        extern fn sink(r: &mut i64);
        fn f() {
          o: Option;
          r: &mut i64;
          y: i64;
          entry:
            o = Option::Some(1);
            switchEnum(o) [None: n_arm, Some: s_arm]
          s_arm:
            r = &mut o as Some;
            y = copy o as Some;
            call sink(move r);
            return
          n_arm:
            unreachable
        }
        ");
    // Substring — variant_flow may also error on the clobbered
    // refinement, but the loan conflict is what we're pinning here.
    assert_errors_contain(&errs, &["already borrowed by 'r'"]);
}

// ---------- Reborrows ----------

#[test]
fn mut_reborrow_of_mut_ok() {
    // r loans x, s reborrows r. NLL inserts unborrow s (via call),
    // then unborrow r; r's obligation is fulfilled (cur=Init from
    // eager transition of &mut, ends=Init).
    assert_no_diagnostics(
        "
        extern fn sink(r: &mut i64);
        fn f(x: i64) {
          r: &mut i64;
          s: &mut i64;
          entry:
            r = &mut x;
            s = &mut r.*;
            call sink(move s);
            return
        }
        ",
    );
}

#[test]
fn access_r_while_reborrow_live_conflicts() {
    // r is suspended by s. `copy r.*` between the reborrow and s's
    // consumption reads through r while s's loan is active — errors.
    let (errs, _) = run("
        extern fn sink(r: &mut i64);
        fn f(x: i64) {
          r: &mut i64;
          s: &mut i64;
          y: i64;
          entry:
            r = &mut x;
            s = &mut r.*;
            y = copy r.*;
            call sink(move s);
            return
        }
        ");
    assert_errors_contain(&errs, &["cannot read 'r.*': already borrowed by 's'"]);
}

#[test]
fn access_x_while_reborrow_live_conflicts() {
    // r's loan on x is still active during s's lifetime, so direct
    // access to x still fails through the r-loan (unchanged behavior;
    // reborrow doesn't remove the parent's loan).
    let (errs, _) = run("
        extern fn sink(r: &mut i64);
        fn f(x: i64) {
          r: &mut i64;
          s: &mut i64;
          entry:
            r = &mut x;
            s = &mut r.*;
            x = 1;
            call sink(move s);
            return
        }
        ");
    assert_errors_contain(&errs, &["cannot write to 'x': already borrowed by 'r'"]);
}

#[test]
fn out_reborrow_of_out_ok_when_pointee_written() {
    // r: &out i64, s: &out r.* fulfilling r's obligation transitively.
    // After s's *s = 42, r.is_init becomes true (via eager on &out).
    // r resumes and its own &out obligation is met.
    assert_no_diagnostics(
        "
        fn f(r: &out i64) {
          s: &out i64;
          entry:
            s = &out r.*;
            s.* = 42;
            return
        }
        ",
    );
}

#[test]
fn shared_reborrow_of_mut_ok() {
    // & *r on r: &mut — shared reborrow permitted; s is Copy Drop, so
    // NLL closes it and r resumes. No obligation on s.
    assert_no_diagnostics(
        "
        extern fn read_ref(r: &i64);
        fn f(x: i64) {
          r: &mut i64;
          s: &i64;
          entry:
            r = &mut x;
            s = &r.*;
            call read_ref(move s);
            return
        }
        ",
    );
}

#[test]
fn chained_reborrow_t_from_s_from_r_ok() {
    // Three-level reborrow: r loans x, s reborrows r, t reborrows s.
    // NLL should unborrow in child-first order: t (via natural
    // consume by call), then s, then r.
    assert_no_diagnostics(
        "
        extern fn sink(t: &mut i64);
        fn f(x: i64) {
          r: &mut i64;
          s: &mut i64;
          t: &mut i64;
          entry:
            r = &mut x;
            s = &mut r.*;
            t = &mut s.*;
            call sink(move t);
            return
        }
        ",
    );
}

#[test]
fn reborrow_of_mut_param_ok() {
    // A ref param r: &mut i64, reborrowed into local s. s's use
    // via *s reads through r; s expires; r resumes; r's own
    // obligation ends the function.
    assert_no_diagnostics(
        "
        extern fn read_ref(r: &i64);
        fn f(r: &mut i64) {
          s: &i64;
          entry:
            s = &r.*;
            call read_ref(move s);
            return
        }
        ",
    );
}

#[test]
fn nll_inserts_child_unborrow_before_parent() {
    // s reborrows r; s dies at the same point as r. NLL must emit
    // unborrow s BEFORE unborrow r, else unborrow r would conflict
    // with s's loan. Full-pipeline clean run implies the order is
    // correct (checker rejects the wrong order).
    assert_no_diagnostics(
        "
        fn f(r: &out i64) {
          s: &out i64;
          entry:
            s = &out r.*;
            s.* = 42;
            return
        }
        ",
    );
}

#[test]
fn bare_downcast_of_deref_still_parses_as_deref_downcast() {
    let (errs, _) = run(
        "
        enum E: Move { V: i64 }
        extern fn sink(r: &mut i64);
        fn f(e: &mut E) {
          r: &mut i64;
          entry:
            switchEnum(e.*) [V: v_arm]
          v_arm:
            r = &mut e as V .*;
            call sink(move r);
            return
        }
        ",
    );
    assert_errors_contain(&errs, &["Cannot downcast non-enum type"]);
}

#[test]
fn deref_then_downcast_reborrow_ok() {
    assert_no_diagnostics(
        "
        enum E: Move { V: i64 }
        extern fn sink(r: &mut i64);
        fn f(e: &mut E) {
          r: &mut i64;
          entry:
            switchEnum(e.*) [V: v_arm]
          v_arm:
            r = &mut e.* as V;
            call sink(move r);
            return
        }
        ",
    );
}

#[test]
fn reborrow_in_loop_body_ok() {
    // Reborrow `s = &mut r.*` inside a loop body. Each iteration
    // creates a fresh s, uses it, drops it (via call). r stays live
    // across the back-edge and NLL closes it on the loop-exit edge.
    assert_no_diagnostics(
        "
        extern fn use_mut(r: &mut i64);
        fn f(x: i64, b: bool) {
          r: &mut i64;
          s: &mut i64;
          entry:
            r = &mut x;
            goto head
          head:
            branch(copy b) [true: body, false: done]
          body:
            s = &mut r.*;
            call use_mut(move s);
            goto head
          done:
            return
        }
        ",
    );
}

// ---------- Borrowers inside values ----------

#[test]
fn field_borrower_blocks_direct_access_to_loaned_place() {
    let (errs, _) = run("
        struct Move RefBox { p: &mut i64 }
        extern fn take_box(b: RefBox);
        fn f(x: i64) {
          b: RefBox;
          entry:
            b.p = &mut x;
            x = 42;
            call take_box(move b);
            return
        }
        ");
    assert_errors_contain(&errs, &["cannot write to 'x': already borrowed by 'b.p'"]);
}

#[test]
fn field_borrower_survives_call_taking_whole_struct() {
    // The whole b is consumed by take_box; b.p's loan on x closes
    // naturally via the ancestor consume. After that, x is writable
    // (but drop-elab will handle the cleanup).
    assert_no_diagnostics(
        "
        struct Move RefBox { p: &mut i64 }
        extern fn take_box(b: RefBox);
        fn f(x: i64) {
          b: RefBox;
          entry:
            b.p = &mut x;
            call take_box(move b);
            return
        }
        ",
    );
}

#[test]
fn reborrow_through_field_ok() {
    assert_no_diagnostics(
        "
        struct Move RefBox { p: &mut i64 }
        extern fn sink(r: &mut i64);
        extern fn take_box(b: RefBox);
        fn f(x: i64) {
          b: RefBox;
          s: &mut i64;
          entry:
            b.p = &mut x;
            s = &mut b.p.*;
            call sink(move s);
            call take_box(move b);
            return
        }
        ",
    );
}

#[test]
fn access_through_field_ref_while_reborrow_live_conflicts() {
    let (errs, _) = run("
        struct Move RefBox { p: &mut i64 }
        extern fn sink(r: &mut i64);
        extern fn take_box(b: RefBox);
        fn f(x: i64) {
          b: RefBox;
          s: &mut i64;
          y: i64;
          entry:
            b.p = &mut x;
            s = &mut b.p.*;
            y = copy b.p.*;
            call sink(move s);
            call take_box(move b);
            return
        }
        ");
    assert_errors_contain(&errs, &["cannot read 'b.p.*': already borrowed by 's'"]);
}

#[test]
fn split_field_borrows_coexist() {
    // b.q and b.r are disjoint. Moving both refs out independently is
    // fine; b is Moved (Partial) after both moves.
    assert_no_diagnostics(
        "
        struct Move RefBox2 { q: &mut i64 r: &mut i64 }
        extern fn use_mut(r: &mut i64);
        fn f(x: i64, y: i64) {
          b: RefBox2;
          entry:
            b.q = &mut x;
            b.r = &mut y;
            call use_mut(move b.q);
            call use_mut(move b.r);
            return
        }
        ",
    );
}

#[test]
fn move_ancestor_closes_field_loans() {
    // Moving b to a callee closes b.p's loan on x — direct access to
    // x afterward is OK.
    assert_no_diagnostics(
        "
        struct Move RefBox { p: &mut i64 }
        extern fn take_box(b: RefBox);
        fn f(x: i64) {
          b: RefBox;
          entry:
            b.p = &mut x;
            call take_box(move b);
            x = 1;
            return
        }
        ",
    );
}

#[test]
fn move_struct_with_fulfilled_field_ref_ok() {
    // Same shape but the ref is properly re-initialized before the
    // outer move — obligation fulfilled.
    assert_no_diagnostics(
        "
        struct Move RefBox { p: &mut i64 }
        extern fn take_box(b: RefBox);
        fn f(x: i64, z: i64) {
          b: RefBox;
          y: i64;
          entry:
            b.p = &mut x;
            y = move b.p.*;
            b.p.* = 7;
            call take_box(move b);
            return
        }
        ",
    );
}

#[test]
fn move_of_struct_with_ref_typed_field_ok() {
    // Baseline: moving a Linear (with &out field) directly through
    // to a callee — the callee's signature accepts the same type.
    assert_no_diagnostics(
        "
        struct Move Linear { r: &out i64 }
        extern fn sink(y: Linear);
        fn f(x: Linear) {
          y: Linear;
          entry:
            y = move x;
            call sink(move y);
            return
        }
        ",
    );
}

#[test]
fn dynamic_field_borrow_multi_loan() {
    // Both branches bind the same field b.p; merge unions the loan
    // targets. Writing to y at merge conflicts.
    let (errs, _) = run("
        struct Move RefBox { p: &mut i64 }
        extern fn take_box(b: RefBox);
        fn f(y: i64, z: i64, cond: bool) {
          b: RefBox;
          entry:
            branch(copy cond) [true: t, false: fbr]
          t:
            b.p = &mut y;
            goto merge
          fbr:
            b.p = &mut z;
            goto merge
          merge:
            y = 1;
            call take_box(move b);
            return
        }
        ");
    assert_errors_contain(&errs, &["cannot write to 'y': already borrowed by 'b.p'"]);
}

// ---------- Arrays ----------

#[test]
fn parses_array_type_and_lit() {
    assert_no_diagnostics(
        "
        fn f() {
          a: [i64; 3];
          entry:
            a = [1i64, 2i64, 3i64];
            return
        }
        ",
    );
}

#[test]
fn array_element_read_via_const_index() {
    assert_no_diagnostics(
        "
        fn f() {
          a: [i64; 3];
          x: i64;
          entry:
            a = [10i64, 20i64, 30i64];
            x = copy a[1i64];
            return
        }
        ",
    );
}

#[test]
fn array_element_read_via_dynamic_index() {
    // Reading through a dynamic index requires the whole array to be
    // Init — which it is here.
    assert_no_diagnostics(
        "
        fn f(i: i64) {
          a: [i64; 3];
          x: i64;
          entry:
            a = [10i64, 20i64, 30i64];
            x = copy a[copy i];
            return
        }
        ",
    );
}

#[test]
fn array_lit_wrong_element_type_errors() {
    let (errs, _) = run(
        "
        fn f() {
          a: [i64; 2];
          entry:
            a = [1i64, 2i32];
            return
        }
        ",
    );
    assert!(
        errs.iter().any(|e| e.contains("has type") || e.contains("Type mismatch")),
        "expected type error, got: {:?}",
        errs
    );
}

#[test]
fn index_into_non_array_errors() {
    let (errs, _) = run(
        "
        fn f(x: i64) {
          y: i64;
          entry:
            y = copy x[0i64];
            return
        }
        ",
    );
    assert!(
        errs.iter().any(|e| e.contains("Cannot index non-array")),
        "expected non-array error, got: {:?}",
        errs
    );
}

#[test]
fn non_int_index_errors() {
    let (errs, _) = run(
        "
        fn f() {
          a: [i64; 3];
          b: bool;
          x: i64;
          entry:
            a = [1i64, 2i64, 3i64];
            b = true;
            x = copy a[copy b];
            return
        }
        ",
    );
    assert!(
        errs.iter().any(|e| e.contains("Array index must be an integer")),
        "expected index-type error, got: {:?}",
        errs
    );
}

#[test]
fn array_in_struct_field_ok() {
    assert_no_diagnostics(
        "
        struct Copy Drop Buf { data: [u8; 4] }
        fn f() {
          b: Buf;
          entry:
            b.data = [65u8, 66u8, 67u8, 68u8];
            return
        }
        ",
    );
}

#[test]
fn loan_on_one_slot_does_not_block_another_slot() {
    // Const-index loans track per-slot: `&mut a[0]` doesn't conflict
    // with a read of `a[1]`. This is the ergonomic payoff of the
    // per-slot init tracking + is_ancestor_or_self index matching.
    assert_no_diagnostics(
        "
        fn f() {
          a: [i64; 3];
          r: &mut i64;
          x: i64;
          y: i64;
          entry:
            a = [10i64, 20i64, 30i64];
            r = &mut a[0i64];
            x = copy a[1i64];
            y = copy r.*;
            return
        }
        ",
    );
}

#[test]
fn dynamic_index_loan_conflicts_with_any_slot_access() {
    // A loan taken with a dynamic index widens to the whole array.
    // Reading any specific slot while that loan is live must conflict
    // (would be legal with a per-slot loan, but dynamic index means
    // we don't know which slot the loan covers).
    let (errs, _) = run(
        "
        fn f(i: i64) {
          a: [i64; 3];
          r: &mut i64;
          x: i64;
          y: i64;
          entry:
            a = [10i64, 20i64, 30i64];
            r = &mut a[copy i];
            x = copy a[0i64];
            y = copy r.*;
            return
        }
        ",
    );
    assert!(
        errs.iter().any(|e| e.contains("already borrowed")),
        "expected loan conflict, got: {:?}",
        errs
    );
}

#[test]
fn array_of_mut_ref_declaration_and_init() {
    // `[&mut i64; N]` composes at the type level. Init via array literal
    // where each element is `&mut x_i`. Since `&mut T` is not Copy but
    // is Move, and ArrayLit takes operands, we borrow-then-move.
    // Boundary: does the parser/type-checker accept the array literal
    // with borrow rvalues masquerading as operands? Expected: the
    // literal itself is operand-only, so this may not parse or may
    // need per-slot init. Pin the current behavior.
    let (errs, _) = run(
        "
        extern fn take(a: [&mut i64; 2]);
        fn f(x: i64, y: i64) {
          rx: &mut i64;
          ry: &mut i64;
          a: [&mut i64; 2];
          entry:
            rx = &mut x;
            ry = &mut y;
            a = [move rx, move ry];
            call take(move a);
            return
        }
        ",
    );
    // Either it works (great) or the diagnostics identify why.
    // Just log what happens by asserting an empty error set is fine
    // OR the errors mention something about the type. Actual check:
    // this must not panic. If errors, the test still succeeds — we
    // just want to document the current state.
    if !errs.is_empty() {
        println!("array_of_mut_ref current diagnostics: {:?}", errs);
    }
}

#[test]
fn zero_length_array_index_out_of_bounds_errors() {
    // `[T; 0]` has no slots; const-index access is out of bounds.
    // `type_check::infer_place_type` catches this at check time.
    assert_err(
        "
        fn f() {
          a: [i64; 0];
          r: &mut i64;
          entry:
            r = &mut a[0i64];
            return
        }
        ",
        "out of bounds",
    );
}

#[test]
fn const_index_past_end_errors() {
    // `[T; N]` with a const index `k >= N` should also error, not
    // just k=0 into [_; 0].
    assert_err(
        "
        fn f() {
          a: [i64; 3];
          r: &mut i64;
          entry:
            a = [1i64, 2i64, 3i64];
            r = &mut a[3i64];
            return
        }
        ",
        "out of bounds",
    );
}

#[test]
fn nested_array_element_read_ok() {
    // `[[T; M]; N]` — read an element of an inner array via two
    // successive index projections.
    assert_no_diagnostics(
        "
        fn f() {
          m: [[i32; 2]; 2];
          x: i32;
          entry:
            m[0i64] = [1i32, 2i32];
            m[1i64] = [3i32, 4i32];
            x = copy m[1i64][0i64];
            return
        }
        ",
    );
}

// ---------- Reports of conflicts ----------

#[test]
fn test_loan_conflict_display() {
    let src = "
        fn f() {
            x: i64;
            r: &mut i64;
            entry:
            x = 10;
            r = &mut x;
            x = 20;
            drop r;
            return
        }
    ";
    let (errs, _) = run(src);
    assert!(!errs.is_empty(), "expected error");
    let err = &errs[0];
    assert!(
        err.contains("[LT-LoanConflict]"),
        "missing code tag, got: {}",
        err
    );
    assert!(
        err.contains("cannot write to 'x': already borrowed by 'r'"),
        "missing message details, got: {}",
        err
    );
    assert!(
        err.contains("hint: the borrow of 'r' is active until its last use or explicit unborrow."),
        "missing hint, got: {}",
        err
    );
}

#[test]
fn test_loan_conflict_dedupe_single_error_per_statement() {
    // `x = 20;` under an active borrow triggers both the RHS-consume
    // check and the write-target check on the same statement. Only one
    // LoanConflict should be reported, not two — the second is
    // redundant noise for the same conflict.
    let src = "
        fn f() {
            x: i64;
            r: &mut i64;
            entry:
            x = 10;
            r = &mut x;
            x = 20;
            drop r;
            return
        }
    ";
    let (errs, _) = run(src);
    let loan_errs: Vec<&String> = errs
        .iter()
        .filter(|e| e.contains("[LT-LoanConflict]"))
        .collect();
    assert_eq!(
        loan_errs.len(),
        1,
        "expected 1 LoanConflict error, got {}:\n{}",
        loan_errs.len(),
        loan_errs
            .iter()
            .map(|s| s.as_str())
            .collect::<Vec<_>>()
            .join("\n---\n")
    );
}

// ---------- Loans across control flow ----------

#[test]
fn borrow_in_loop_body_no_residual_loan() {
    let (errs, _) = run("
        extern fn use_ref(r: &mut i64);
        fn f(x: i64, b: boolean) {
          r: &mut i64;
          entry:
            goto head
          head:
            branch(copy b) [true: body, false: done]
          body:
            r = &mut x;
            call use_ref(move r);
            goto head
          done:
            x = 42;
            return
        }
        ");
    assert!(
        !errs.iter().any(|e| e.contains("cannot write to 'x'")),
        "unexpected loan conflict on x at done: {:?}",
        errs
    );
}

#[test]
fn borrow_across_loop_iterations_ok() {
    assert_no_diagnostics(
        "
        extern fn sink(r: &mut i64);
        extern fn use_num(n: i64);
        fn f(x: i64, b: boolean) {
          r: &mut i64;
          entry:
            r = &mut x;
            goto head
          head:
            branch(copy b) [true: body, false: done]
          body:
            call use_num(copy *r);
            goto head
          done:
            call sink(move r);
            return
        }
        ",
    );
}

#[test]
fn zero_iteration_loop_ok() {
    assert_no_diagnostics(
        "
        extern fn sink(r: &mut i64);
        fn f(b: boolean, x: i64) {
          r: &mut i64;
          entry:
            r = &mut x;
            goto head
          head:
            branch(copy b) [true: body, false: done]
          body:
            goto head
          done:
            call sink(move r);
            return
        }
        ",
    );
}

#[test]
fn symmetric_borrow_then_gone_merge_access_ok() {
    assert_no_diagnostics(
        "
        extern fn sink(r: &mut i64);
        fn f(x: i64, b: boolean) {
          r: &mut i64;
          entry:
            branch(copy b) [true: t, false: fbr]
          t:
            r = &mut x;
            call sink(move r);
            goto merge
          fbr:
            r = &mut x;
            call sink(move r);
            goto merge
          merge:
            x = 42;
            return
        }
        ",
    );
}

#[test]
fn symmetric_borrow_carried_through_merge_ok() {
    assert_no_diagnostics(
        "
        extern fn sink(r: &mut i64);
        fn f(x: i64, b: boolean) {
          r: &mut i64;
          entry:
            branch(copy b) [true: t, false: fbr]
          t:
            r = &mut x;
            goto merge
          fbr:
            r = &mut x;
            goto merge
          merge:
            call sink(move r);
            return
        }
        ",
    );
}

#[test]
fn abort_with_live_borrow_other_arm_returns_ok() {
    assert_no_diagnostics(
        "
        extern fn sink(r: &mut i64);
        fn f(x: i64, b: boolean) {
          r: &mut i64;
          entry:
            r = &mut x;
            branch(copy b) [true: t, false: fbr]
          t:
            abort
          fbr:
            call sink(move r);
            return
        }
        ",
    );
}

#[test]
fn borrow_before_abort_no_leak_into_sibling_ok() {
    assert_no_diagnostics(
        "
        extern fn use_num(n: i64);
        fn f(x: i64, b: boolean) {
          r: &mut i64;
          entry:
            branch(copy b) [true: t, false: fbr]
          t:
            r = &mut x;
            abort
          fbr:
            call use_num(copy x);
            return
        }
        ",
    );
}

#[test]
fn borrow_downcast_with_unreachable_sibling_ok() {
    assert_no_diagnostics(
        "
        enum Copy Drop Option { None: unit Some: i64 }
        extern fn sink(r: &mut i64);
        fn f() {
          o: Option;
          r: &mut i64;
          entry:
            o = Option::Some(1);
            switchEnum(o) [None: n_arm, Some: s_arm]
          s_arm:
            r = &mut o as Some;
            call sink(move r);
            return
          n_arm:
            unreachable
        }
        ",
    );
}

#[test]
fn switch_arms_same_borrow_carried_through_merge_ok() {
    assert_no_diagnostics(
        "
        enum Copy Drop Sel { A: unit B: unit }
        extern fn sink(r: &mut i64);
        fn f(o: Sel, x: i64) {
          r: &mut i64;
          entry:
            switchEnum(o) [A: a_arm, B: b_arm]
          a_arm:
            r = &mut x;
            goto merge
          b_arm:
            r = &mut x;
            goto merge
          merge:
            call sink(move r);
            return
        }
        ",
    );
}

#[test]
fn two_sequential_loops_ok() {
    assert_no_diagnostics(
        "
        extern fn noop();
        fn f(b: boolean) {
          entry:
            goto head1
          head1:
            branch(copy b) [true: body1, false: done1]
          body1:
            call noop();
            goto head1
          done1:
            goto head2
          head2:
            branch(copy b) [true: body2, false: done2]
          body2:
            call noop();
            goto head2
          done2:
            return
        }
        ",
    );
}

#[test]
fn nested_loops_converge_ok() {
    // A loop inside a loop — the fixpoint over back-edges should
    // still converge and produce the expected states.
    assert_no_diagnostics(
        "
        extern fn noop();
        fn f(a: boolean, b: boolean) {
          entry:
            goto outer_head
          outer_head:
            branch(copy a) [true: inner_head, false: outer_done]
          inner_head:
            branch(copy b) [true: inner_body, false: outer_back]
          inner_body:
            call noop();
            goto inner_head
          outer_back:
            goto outer_head
          outer_done:
            return
        }
        ",
    );
}

#[test]
fn irreducible_control_flow_two_entry_points_ok() {
    // Both `l` and `m` have a predecessor from the other and from
    // entry — the loop has no single header (irreducible flow).
    // Fixpoint should still converge.
    assert_no_diagnostics(
        "
        extern fn noop();
        fn f(a: boolean, b: boolean) {
          entry:
            branch(copy a) [true: l, false: m]
          l:
            call noop();
            branch(copy b) [true: m, false: exit]
          m:
            call noop();
            branch(copy a) [true: l, false: exit]
          exit:
            return
        }
        ",
    );
}

#[test]
fn nested_loop_with_borrow_across_outer_iterations_ok() {
    // Borrow taken outside both loops, used through the inner loop,
    // consumed after both. Confirms loan persists through nested
    // back-edges without accumulating.
    assert_no_diagnostics(
        "
        extern fn sink(r: &mut i64);
        extern fn use_num(n: i64);
        fn f(x: i64, a: boolean, b: boolean) {
          r: &mut i64;
          entry:
            r = &mut x;
            goto outer_head
          outer_head:
            branch(copy a) [true: inner_head, false: outer_done]
          inner_head:
            branch(copy b) [true: inner_body, false: outer_back]
          inner_body:
            call use_num(copy *r);
            goto inner_head
          outer_back:
            goto outer_head
          outer_done:
            call sink(move r);
            return
        }
        ",
    );
}

// ---------- Ends of loans ----------

#[test]
fn idempotent_second_run_is_noop() {
    let src = "
        fn f(x: i64) {
          r: &mut i64;
          y: i64;
          entry:
            r = &mut x;
            y = copy r.*;
            x = 42;
            return
        }
        ";
    let mut program = parse(src);
    let env = IndexedProgram::build(&program).0;
    nll::elaborate(&mut program, &env);
    let after_first = program_text(&program);

    // Rebuild env against the elaborated program and run NLL again.
    let env2 = IndexedProgram::build(&program).0;
    nll::elaborate(&mut program, &env2);
    let after_second = program_text(&program);

    assert_eq!(
        after_first, after_second,
        "second NLL run changed the program; expected idempotence"
    );
}

// ---------- Names of temporaries in reports ----------

#[test]
fn loan_conflict_hides_hll_temporary_borrower_name() {
    let mut program = parse(
        r#"
        fn f(x: i64) {
          _temp_0: & i64;
          entry:
            _temp_0 = & x;
            x = 1;
            unborrow _temp_0;
            drop x;
            return
        }
        "#,
    );
    let Declaration::Fn(func) = &mut program.declarations[0] else {
        panic!("expected function declaration");
    };
    let body = func.body.as_mut().expect("expected function body");
    body.locals[0].source = SourceInfo::generated(
        GeneratedKind::HllTemporary(HllTemporaryKind::Expression),
        body.locals[0].span(),
    );
    for stmt in &mut body.blocks[0].statements {
        stmt.source = SourceInfo::generated(GeneratedKind::HllDesugaring, stmt.span());
    }

    let (env, env_errors) = IndexedProgram::build(&program);
    assert!(env_errors.is_empty());
    let mut diagnostics = Diagnostics::default();
    check_program(&program, &env, &mut diagnostics);

    let conflict = diagnostics
        .errors
        .iter()
        .find(|diag| diag.message.contains("active shared borrow"))
        .expect("expected loan conflict");
    assert_eq!(
        conflict.message,
        "cannot write to 'x': conflicts with an active shared borrow of 'x'"
    );
    assert!(!conflict.message.contains("_temp_0"));
}

#[test]
fn ordinary_access_to_expression_temp_is_not_misreported_as_escape() {
    let mut program = parse(
        r#"
        fn f() {
          _temp_0: i64;
          r: & i64;
          entry:
            _temp_0 = 1;
            r = & _temp_0;
            _temp_0 = 2;
            unborrow r;
            drop _temp_0;
            return
        }
        "#,
    );
    let Declaration::Fn(func) = &mut program.declarations[0] else {
        panic!("expected function declaration");
    };
    let body = func.body.as_mut().expect("expected function body");
    body.locals[0].source = SourceInfo::generated(
        GeneratedKind::HllTemporary(HllTemporaryKind::Expression),
        body.locals[0].span(),
    );
    for stmt in &mut body.blocks[0].statements {
        stmt.source = SourceInfo::generated(GeneratedKind::HllDesugaring, stmt.span());
    }

    let (env, env_errors) = IndexedProgram::build(&program);
    assert!(env_errors.is_empty());
    let mut diagnostics = Diagnostics::default();
    check_program(&program, &env, &mut diagnostics);

    let conflict = diagnostics
        .errors
        .iter()
        .find(|diagnostic| diagnostic.message.contains("cannot write"))
        .expect("expected loan conflict");
    assert_eq!(
        conflict.message,
        "cannot write to 'temporary value': already borrowed by 'r'"
    );
    assert!(!conflict.message.contains("escapes"));
    assert!(!conflict.message.contains("_temp_0"));
}

// ---------- Split edges in programs ----------

#[test]
fn generated_split_label_round_trips_through_mir_syntax() {

    let src = "
        fn f() {
          entry:
            goto target
          target:
            return
        }
        ";
    let mut program = parse(src);

    let function = program
        .declarations
        .iter_mut()
        .find_map(|decl| match decl {
            Declaration::Fn(function) => Some(function),
            _ => None,
        })
        .expect("fixture contains a function");
    split_edge(
        function.body.as_mut().expect("function has a body"),
        "entry",
        "target",
    );

    let printed = program_text(&program);
    assert!(printed.contains("$edge0:"));
    let again = parse(&printed);
    assert_eq!(program_text(&again), printed);
}

#[test]
fn split_then_full_pipeline_still_clean() {
    // Parse a simple program, split a critical edge in the AST, then
    // run the full pipeline — semantics are preserved so the check
    // should still be clean.

    let src = "
        fn f(b: bool, x: i64) {
          y: i64;
          entry:
            branch(copy b) [true: t, false: fbr]
          t:
            y = 1;
            goto end
          fbr:
            y = 2;
            goto end
          end:
            return
        }
        ";
    let mut program = parse(src);

    // Split the entry→t edge. `t` doesn't have multiple preds here, so
    // the edge isn't strictly critical, but the always-split contract
    // still applies and semantics must be preserved.
    for decl in &mut program.declarations {
        if let Declaration::Fn(func) = decl {
            if let Some(body) = &mut func.body {
                split_edge(body, "entry", "t");
            }
        }
    }

    let mut d = Diagnostics::default();
    check(program, &mut d);
    assert!(
        d.errors.is_empty() && d.warnings.is_empty(),
        "expected clean, got errors: {:?}",
        d.errors
    );
}

// ---------- Regions of programs ----------

#[test]
fn ref_to_ref_assignment_emits_outlives() {
    // `r = copy x` where both are `&i64`: source region must
    // outlive destination region. After elision x's region is
    // 's0 (from signature). r is a body-local, so its region is
    // Free.
    let src = "
        fn f(x: &i64) {
          r: &i64;
          entry:
            r = copy x;
            return
        }
    ";
    let (mut env, _errs) = IndexedProgram::build(&parse(src));
    desugar_program(&mut env);
    let func = env.functions.get("f").expect("fn f");
    let cs = constraints_for(&env, func);
    assert_eq!(cs.len(), 1, "expected one outlives constraint");
    let c = &cs.constraints[0];
    assert_eq!(c.outlives, Region::Named(Lifetime("s0".into())));
    assert!(matches!(c.sub, Region::Free(_)));
}

#[test]
fn build_region_ctx_assigns_named_to_signature_free_to_locals() {
    // Signature refs get Named (from elision or user); body-local
    // refs get Free (elision doesn't run on locals).
    let src = "
        fn<'a> f(x: &'a i64) {
          r: &i64;
          entry:
            r = & x.*;
            return
        }
    ";
    let mut program = parse(src);
    elide_program(&mut program);
    let (env, _errs) = IndexedProgram::build(&program);
    let func = find_fn(&program, "f");
    let ctx = build_region_ctx(func, &env);
    assert_eq!(
        ctx.get(&var_place("x")),
        Some(&Region::Named(Lifetime("a".into())))
    );
    assert!(matches!(ctx.get(&var_place("r")), Some(Region::Free(_))));
}

// ---------- Elision in programs ----------

fn has_bound(bounds: &[OutlivesBound], longer: &str, shorter: &str) -> bool {
    bounds.iter().any(|b| b.longer.0 == longer && b.shorter.0 == shorter)
}

fn parse_and_elide(src: &str) -> Function {
    let mut program = parse(src);
    elide_program(&mut program);
    program
        .declarations
        .into_iter()
        .find_map(|d| match d {
            Declaration::Fn(f) => Some(f),
            _ => None,
        })
        .expect("fn decl")
}

#[test]
fn single_input_output_gets_input_outlives_output_axiom() {
    // fn identity(r: &i64, $return: &out &i64) — elides to
    //   r: &'s0 i64,  $return: &out 's1 &'s2 i64
    // 's0 (input) outlives 's2 (elided output).
    // 's1 (input, outer &out lifetime) outlives 's2 too.
    let f = parse_and_elide(
        "
        fn identity(r: &i64, $return: &out &i64) {
          entry:
            return
        }
    ",
    );
    assert!(has_bound(&f.meta.params.outlives, "s0", "s2"));
    assert!(has_bound(&f.meta.params.outlives, "s1", "s2"));
    assert!(f.meta.params.outlives.iter().all(|bound| {
        bound.source.generated_kind() == Some(GeneratedKind::LifetimeElision)
    }));
}

#[test]
fn multi_input_gives_intersection_axiom() {
    // fn pick(x: &i64, y: &i64, $return: &out &i64) — every
    // input outlives the elided output.
    let f = parse_and_elide(
        "
        fn pick(x: &i64, y: &i64, $return: &out &i64) {
          entry:
            return
        }
    ",
    );
    // Output: 's3 (inner of $return). Inputs: 's0, 's1, 's2.
    for input in ["s0", "s1", "s2"] {
        assert!(
            has_bound(&f.meta.params.outlives, input, "s3"),
            "expected {} outlives s3",
            input,
        );
    }
}

#[test]
fn explicit_output_lifetime_no_axiom() {
    // Fully-explicit signature: no axioms because nothing was
    // synthesized in output position.
    let f = parse_and_elide(
        "
        fn<'a> identity(r: &'a i64, $return: &out &'a i64) {
          entry:
            return
        }
    ",
    );
    assert!(
        f.meta.params.outlives.is_empty(),
        "explicit signature should have no axioms, got {:?}",
        f.meta.params.outlives
    );
}

#[test]
fn lifetime_arguments_of_named_types_are_inputs() {
    let f = parse_and_elide(
        "
        fn<'a> f(w: Wrap<'a>, $return: &out &i64) {
          entry:
            return
        }
    ",
    );
    // Inputs: 'a and the outer 's0. Output: 's1.
    assert_eq!(f.meta.params.outlives.len(), 2);
    assert!(has_bound(&f.meta.params.outlives, "a", "s1"));
    assert!(has_bound(&f.meta.params.outlives, "s0", "s1"));

    let (mut env, errors) = IndexedProgram::build(&parse(
        "
        struct<'a> Wrap: Copy { r: &'a i64 }
        fn<'a> f(w: Wrap<'a>, q: &mut Wrap<'a>, $return: &out &i64) {
          entry:
            return
        }
    ",
    ));
    assert!(errors.is_empty());
    desugar_program(&mut env);
    let f = env.functions.get("f").expect("fn f");
    // What lies behind `&mut` is written: 'a is noted once, for `w`.
    assert_eq!(f.meta.params.outlives.len(), 3);
    for input in ["a", "s0", "s1"] {
        assert!(has_bound(&f.meta.params.outlives, input, "s2"));
    }
}

// ---------- Walks over declarations and bodies ----------

#[test]
fn declarations_cover_indexed_namespaces_and_exclude_intrinsics() {
    let program = parse(
        "
        trait T { fn use_(value: & Self); }
        struct S: Copy + Drop { value: i64 }
        impl T for S {
          fn use_(value: & S) { entry: return }
        }
        fn f() { entry: return }
        enum E: Copy + Drop { V: unit }
        ",
    );
    let (program, errors) = IndexedProgram::build(&program);
    assert!(errors.is_empty(), "environment errors: {errors:?}");

    let declarations: Vec<String> = program
        .declarations()
        .into_iter()
        .map(|declaration| match declaration {
            DeclarationRef::Struct(s) => format!("struct {}", s.meta.name),
            DeclarationRef::Enum(e) => format!("enum {}", e.meta.name),
            DeclarationRef::Function(f) => format!("fn {}", f.meta.name),
            DeclarationRef::Trait(t) => format!("trait {}", t.meta.name),
            DeclarationRef::Impl(_) => "impl".to_string(),
        })
        .collect();

    assert_eq!(
        declarations,
        ["trait T", "struct S", "impl", "fn f", "enum E"]
    );
    let mut functions = Vec::new();
    for (_env, function) in program.functions() {
        functions.push((function.meta.name.clone(), function.body.is_some()));
    }
    assert_eq!(
        functions,
        [("use_".to_string(), true), ("f".to_string(), true)]
    );
}

/// Marks the bodies that it visits.
struct Visited;

impl BodyPass for Visited {
    fn rewritten(&self, _: EnvView, _: FunctionView, _: FunctionBodyView) -> FunctionBodyView {
        unreachable!("a specification")
    }

    fn keeps_types(&self) -> bool {
        unreachable!("a specification")
    }

    fn rewrite(&self, env: &LocalEnv<'_>, function: &Function, body: &mut FunctionBody) {
        if function.meta.name == "free" {
            assert!(env.program().functions.get("free").unwrap().body.is_none());
        } else {
            assert!(env
                .program()
                .impls
                .iter()
                .flat_map(|impl_block| &impl_block.methods)
                .find(|method| method.meta.name == function.meta.name)
                .is_some_and(|method| method.body.is_none()));
        }
        body.blocks[0].label.push_str("_visited");
    }
}

#[test]
fn function_visitors_provide_generic_context_and_reattach_mutated_bodies() {
    let program = parse(
        "
        trait<T> Tr { fn<U> method(value: & Self, other: U); }
        struct<T> S { value: T }
        impl<X> Tr<X> for S<X> {
          fn<Y> method(value: & S<X>, other: Y) { entry: return }
        }
        fn<Z> free(value: Z) { entry: return }
        extern fn<Z> external(value: Z);
        ",
    );
    let (mut program, errors) = IndexedProgram::build(&program);
    assert!(errors.is_empty(), "environment errors: {errors:?}");

    let mut contexts = Vec::new();
    for (env, function) in program.functions() {
        if function.meta.name == "method" {
            assert!(env.type_param("X").is_some());
            assert!(env.type_param("Y").is_some());
        } else {
            assert!(env.type_param("Z").is_some());
            assert!(env.type_param("X").is_none());
        }
        contexts.push((
            function.meta.name.clone(),
            env.impl_generics()
                .and_then(|params| params.type_params.first())
                .map(|param| param.name.clone()),
            env.decl_generics()
                .type_params
                .first()
                .map(|param| param.name.clone()),
            env.self_ty().map(|ty| ty.text()),
            function.body.is_some(),
        ));
    }
    assert_eq!(
        contexts,
        [
            (
                "method".to_string(),
                Some("X".to_string()),
                Some("Y".to_string()),
                Some("S<X>".to_string()),
                true,
            ),
            ("free".to_string(), None, Some("Z".to_string()), None, true),
            (
                "external".to_string(),
                None,
                Some("Z".to_string()),
                None,
                false,
            ),
        ]
    );

    program.visit_function_bodies_mut(&Visited);

    let mut labels = Vec::new();
    for (_env, function, body) in program.function_bodies() {
        labels.push((function.meta.name.clone(), body.blocks[0].label.clone()));
    }
    assert_eq!(
        labels,
        [
            ("method".to_string(), "entry_visited".to_string()),
            ("free".to_string(), "entry_visited".to_string()),
        ]
    );
}

// ---------- Monomorphization ----------

#[test]
fn type_rewrite_preserves_outer_and_nested_provenance() {
    let outer_source = SourceInfo::written(Span {
        line: 3,
        col: 5,
        end_line: 3,
        end_col: 17,
    });
    let inner_source = SourceInfo::generated(
        GeneratedKind::LifetimeElision,
        Span {
            line: 3,
            col: 6,
            end_line: 3,
            end_col: 16,
        },
    );
    let ty = Type::new(
        TypeKind::Array(
            Box::new(Type::new(
                TypeKind::Custom(Instance::new(
                    "Box",
                    vec![Lifetime("box".into())],
                    vec![i64_ty()],
                )),
                inner_source,
            )),
            1,
        ),
        outer_source,
    );
    let mut needs = Needs::new();

    let rewritten = needs.fold_type(&ty).expect("no type parameter");

    assert_eq!(rewritten.source, outer_source);
    let TypeKind::Array(inner, 1) = rewritten.kind else {
        panic!("expected rewritten array type");
    };
    assert_eq!(inner.source, inner_source);
    let TypeKind::Custom(Instance {
        name,
        lifetime_args: lifetimes,
        type_args: args,
    }) = inner.kind
    else {
        panic!("expected rewritten custom type");
    };
    assert_eq!(name, "Box<i64>");
    assert_eq!(lifetimes, vec![Lifetime("box".into())]);
    assert!(args.is_empty());
}

#[test]
fn monomorphization_preserves_declared_lifetime_metadata() {
    let parsed = parse(
        "
        struct<'a: 'static, T: Copy + Drop> Borrowed: Copy + Drop {
          value: & 'a T
        }

        fn<'caller: 'static> use_borrowed(value: Borrowed<'caller, i64>) {
          entry:
            drop value;
            return
        }
        ",
    );

    let original_struct = parsed
        .declarations
        .iter()
        .find_map(|decl| match decl {
            Declaration::Struct(decl) if decl.meta.name == "Borrowed" => Some(decl.clone()),
            _ => None,
        })
        .expect("generic struct exists");
    let original_function = find_fn(&parsed, "use_borrowed").clone();

    let program = IndexedProgram::build(&parsed).0;
    let program = monomorphize(program);

    let specialized_struct = match program.types.get("Borrowed<i64>") {
        Some(TypeDecl::Struct(declaration)) => declaration,
        _ => panic!("specialized struct exists"),
    };
    assert_eq!(
        specialized_struct.meta.params.lifetime_params,
        original_struct.meta.params.lifetime_params
    );
    assert_eq!(
        specialized_struct.meta.params.outlives,
        original_struct.meta.params.outlives
    );
    assert_eq!(
        specialized_struct.fields[0].ty.source,
        original_struct.fields[0].ty.source
    );
    let TypeKind::Ref(_, Some(field_lifetime), field_inner) =
        &specialized_struct.fields[0].ty.kind
    else {
        panic!("specialized field remains a named reference");
    };
    assert_eq!(field_lifetime, &Lifetime("a".into()));
    let TypeKind::Custom(Instance {
        type_args: original_type_args,
        ..
    }) = &original_function.params[0].ty.kind
    else {
        panic!("original root parameter is a custom type");
    };
    assert_eq!(field_inner.source, original_type_args[0].source);

    let specialized_function = program
        .functions
        .get("use_borrowed")
        .expect("root function remains");
    assert_eq!(
        specialized_function.meta.params.lifetime_params,
        original_function.meta.params.lifetime_params
    );
    assert_eq!(
        specialized_function.meta.params.outlives,
        original_function.meta.params.outlives
    );
    assert_eq!(
        specialized_function.params[0].ty.source,
        original_function.params[0].ty.source
    );
    let TypeKind::Custom(Instance {
        name,
        lifetime_args: lifetimes,
        type_args: args,
    }) = &specialized_function.params[0].ty.kind
    else {
        panic!("root parameter remains a custom type");
    };
    assert_eq!(name, "Borrowed<i64>");
    assert_eq!(lifetimes, &[Lifetime("caller".into())]);
    assert!(args.is_empty());
}

// ---------- What has no type ----------

const TYPED: &str = "
    trait Show { fn show(value: & Self); }
    trait Hide { fn cover(value: & Self); }
    struct<T> S { value: T }
    struct P { x: i64 y: bool }
    enum E { A: i64 B: unit }
    enum<T> O { None: unit Some: T }
    impl Show for P { fn show(value: & P) { entry: return } }
    fn<Z> f(x: i64, p: P, e: E, s: S<i64>, a: [i64; 3], r: &i64, u: Missing, z: Z) {
      entry: return
    }
    ";

/// The code and the message for the right-hand side of an assignment in `f`.
fn rvalue_error(text: &str) -> (TypeCheckCode, String) {
    let mut r = Reader::new(text);
    r.type_params.push("Z".to_string());
    error_of(&r.rvalue())
}

fn error_of(rv: &RValue) -> (TypeCheckCode, String) {
    let program = parse(TYPED);
    let (env, errors) = IndexedProgram::build(&program);
    assert!(errors.is_empty());
    let f = find_fn(&program, "f");
    let local_env = LocalEnv::for_decl(&env, &f.meta.params);
    let source = SourceInfo::written(Span::default());
    let e = local_env.type_of_rvalue(rv, source, &f.locals_map()).expect_err("an error");
    let mut format = DiagnosticFormat::new();
    let scope = format.scope(&f.meta);
    (e.code(), e.message(&mut format, &scope, &env))
}

#[test]
fn every_failure_to_type_has_its_code_and_message() {
    let cases = [
        ("copy w", TypeCheckCode::UndeclaredVariable, "Use of undeclared variable 'w'"),
        ("copy x.*", TypeCheckCode::DerefOfNonPointer, "Cannot dereference non-pointer type i64"),
        (
            "copy x.f",
            TypeCheckCode::FieldOfNonStruct,
            "Cannot project field 'f' of non-struct type i64",
        ),
        ("copy p.f", TypeCheckCode::NoSuchField, "Struct 'P' has no field 'f'"),
        ("copy e.f", TypeCheckCode::FieldOfNonStruct, "Cannot project field 'f' of enum type 'E'"),
        ("copy u.f", TypeCheckCode::UndeclaredType, "Use of undeclared type 'Missing'"),
        ("copy x as A", TypeCheckCode::DowncastOfNonEnum, "Cannot downcast non-enum type i64"),
        ("copy p as A", TypeCheckCode::DowncastOfNonEnum, "Cannot downcast struct type 'P'"),
        ("copy e as C", TypeCheckCode::NoSuchVariant, "Enum 'E' has no variant 'C'"),
        ("copy x[0i64]", TypeCheckCode::IndexOfNonArray, "Cannot index non-array type i64"),
        (
            "copy a[copy p.y]",
            TypeCheckCode::ArrayIndexNotInteger,
            "Array index must be an integer, got bool",
        ),
        (
            "copy a[3i64]",
            TypeCheckCode::ArrayIndexOutOfBounds,
            "Array index 3 out of bounds for [_; 3]",
        ),
        ("nobody", TypeCheckCode::UndeclaredFunction, "Undeclared function name 'nobody'"),
        ("P::A(1)", TypeCheckCode::EnumConstrOnNonEnum, "'P' is a struct, not an enum"),
        ("Q::A(1)", TypeCheckCode::EnumConstrOnNonEnum, "Undeclared enum 'Q'"),
        (
            "O::Some(1)",
            TypeCheckCode::EnumConstrOnNonEnum,
            "Enum 'O' takes 1 type argument(s), found 0",
        ),
        (
            "E::A(true)",
            TypeCheckCode::EnumConstrPayloadTypeMismatch,
            "Variant 'A' of enum 'E' expects type i64, found bool",
        ),
        (
            "[1i64, true]",
            TypeCheckCode::ArrayLitElementTypeMismatch,
            "Array literal element 1 has type bool, expected i64",
        ),
        (
            "<P as Nothing>::show",
            TypeCheckCode::TraitFnUnknownTrait,
            "Trait-method call references undeclared trait 'Nothing'",
        ),
        (
            "<Z as Show>::show",
            TypeCheckCode::TraitFnParamReceiver,
            "Trait-method call on generic parameter 'Z' requires a trait bound \
             (deferred pending trait-bound syntax)",
        ),
        ("<P as Hide>::cover", TypeCheckCode::TraitFnNoImpl, "No impl of 'Hide' for P in scope"),
        (
            "<P as Show>::other",
            TypeCheckCode::TraitFnNoMethod,
            "Impl of 'Show' for P has no method 'other'",
        ),
    ];
    for (text, code, message) in cases {
        assert_eq!(rvalue_error(text), (code, message.to_string()), "for {}", text);
    }
}

#[test]
fn casts_are_between_pointers() {
    let raw = raw_ptr_ty(i64_ty());
    assert_eq!(
        error_of(&RValue::PtrCast(copy_op(var_place("x")), raw)),
        (
            TypeCheckCode::PtrCastSourceNotPointer,
            "Pointer cast source must be a raw pointer or reference type, found i64".to_string()
        )
    );
    assert_eq!(
        error_of(&RValue::PtrCast(copy_op(var_place("r")), bool_ty())),
        (
            TypeCheckCode::PtrCastTargetNotPointer,
            "Pointer cast target must be a raw pointer or reference type, found bool".to_string()
        )
    );
}

#[test]
fn two_impls_that_match_are_ambiguous() {
    let program = parse(
        "
        trait Show { fn show(value: & Self); }
        struct<T> S { value: T }
        impl<T> Show for S<T> { fn show(value: & S<T>) { entry: return } }
        impl Show for S<i64> { fn show(value: & S<i64>) { entry: return } }
        fn f() { entry: return }
        ",
    );
    let (env, errors) = IndexedProgram::build(&program);
    assert!(errors.is_empty());
    let f = find_fn(&program, "f");
    let local_env = LocalEnv::for_decl(&env, &f.meta.params);
    let s_i64 = custom_ty_with_args("S", vec![i64_ty()]);
    let s_bool = custom_ty_with_args("S", vec![bool_ty()]);
    let show = Instance::bare("Show");
    let method = Instance::bare("show");
    let e = local_env.resolve_trait_fn(&show, &s_i64, &method).expect_err("two impls");
    assert_eq!(e.code(), TypeCheckCode::TraitFnAmbiguousImpl);
    let mut format = DiagnosticFormat::new();
    let scope = format.scope(&f.meta);
    assert_eq!(e.message(&mut format, &scope, &env), "Multiple impls of 'Show' match S<i64>");
    assert!(local_env.resolve_trait_fn(&show, &s_bool, &method).is_ok());
    assert_eq!(local_env.matching_impls(&show, &s_i64).len(), 2);
    assert_eq!(local_env.matching_impls(&show, &s_bool).len(), 1);
}

#[test]
fn every_invalid_type_has_its_message() {
    let program = parse(
        "
        struct<'a, T: Copy> S { value: & 'a T }
        struct N { r: &out i64 }
        fn f() { entry: return }
        ",
    );
    let (env, errors) = IndexedProgram::build(&program);
    assert!(errors.is_empty());
    let f = find_fn(&program, "f");
    let local_env = LocalEnv::for_decl(&env, &f.meta.params);
    let cases = [
        ("Missing", "Use of undeclared type 'Missing'"),
        ("S<'static, 'static, i64>", "Type 'S' expects 1 lifetime argument(s), got 2"),
        ("S<'static>", "Type 'S' expects 1 type argument(s), got 0"),
        (
            "S<'static, N>",
            "Type argument N for 'S::T' does not satisfy required bound 'Copy'",
        ),
        ("[&Missing; 2]", "Use of undeclared type 'Missing'"),
    ];
    for (text, message) in cases {
        let ty = Reader::new(text).ty();
        let e = local_env.validate_type(&ty).expect_err("an error");
        let mut format = DiagnosticFormat::new();
        let scope = format.scope(&f.meta);
        assert_eq!(e.message(&mut format, &scope), message, "for {}", text);
    }
    for text in ["S<'static, i64>", "S<i64>"] {
        assert!(local_env.validate_type(&Reader::new(text).ty()).is_ok());
    }
}

#[test]
fn second_declarations_are_reported() {
    let (env, errors) = IndexedProgram::build(&parse(
        "
        struct S { x: i64 }
        enum S { A: unit }
        fn f() { entry: return }
        fn f(x: i64) { entry: return }
        trait T { fn m(value: & Self); }
        trait T { fn n(value: & Self); }
        impl T for S { fn m(value: & S) { entry: return } }
        impl T for S { fn m(value: & S) { entry: return } }
        ",
    ));
    let messages: Vec<&str> = errors.iter().map(|e| e.message.as_str()).collect();
    assert_eq!(messages.len(), 4);
    assert!(messages[3].contains("Duplicate impl of trait 'T' for target type S"));
    assert!(errors
        .iter()
        .all(|e| e.code == DiagCode::TypeCheck(TypeCheckCode::DuplicateDeclaration)));
    assert!(matches!(env.types.get("S"), Some(TypeDecl::Struct(_))));
    assert_eq!(env.functions.get("f").unwrap().params.len(), 0);
    assert_eq!(env.impls.len(), 1);
}

// ---------- Layouts ----------

#[test]
fn a_type_that_holds_itself_has_no_layout() {
    let env = env_of(
        "
        struct S { s: S }
        enum Loop { A: unit B: Loop }
        struct A { b: B }
        struct B { a: A }
        ",
    );
    for name in ["S", "Loop", "A", "B"] {
        assert!(layout_of(&custom_ty(name), &env).is_none());
    }
}

#[test]
fn arrays_repeat_their_elements() {
    let env = env_of("struct P { b: bool x: i32 }");
    assert_eq!(size_of(&custom_ty("P"), &env), 8);
    assert_eq!(size_of(&array_ty(custom_ty("P"), 3), &env), 24);
    assert_eq!(align_of(&array_ty(custom_ty("P"), 3), &env), 4);
    assert_eq!(size_of(&array_ty(i64_ty(), 0), &env), 0);
    assert_eq!(align_of(&array_ty(i64_ty(), 0), &env), 8);
}

// ---------- Idempotent passes ----------

#[test]
fn relaxing_decides_every_take_and_settles() {
    let src = "
        struct N { r: &out i64 }
        extern fn consume(x: i64);
        extern fn take_n(n: N);
        fn f(x: i64, n: N) {
          entry:
            call consume(take x);
            call consume(take x);
            call take_n(take n);
            return
        }
        ";
    let program = elaborate_source(src);
    assert!(matches!(call_arg(&program, "f", 0), Operand::Copy(_)));
    assert!(matches!(call_arg(&program, "f", 1), Operand::Move(_)));
    assert!(matches!(call_arg(&program, "f", 2), Operand::Move(_)));
    let (env, _) = IndexedProgram::build(&program);
    let mut again = program.clone();
    copy_relaxation::elaborate(&mut again, &env);
    assert_eq!(again, program);
}

#[test]
fn relaxation_visits_methods_too() {
    let (mut program, errors) = IndexedProgram::build(&parse(
        "
        extern fn consume(x: i64);
        struct S: Copy + Drop { x: i64 }
        impl S {
          fn twice(x: i64) {
            entry:
              call consume(move x);
              call consume(move x);
              return
          }
        }
        ",
    ));
    assert!(errors.is_empty());
    program.visit_function_bodies_mut(&copy_relaxation::Relaxation);
    let body = program.inherent_impls[0].methods[0].body.as_ref().unwrap();
    let reads: Vec<bool> = body.blocks[0]
        .statements
        .iter()
        .map(|s| matches!(&s.kind, StatementKind::Call(_, args) if matches!(args[0], Operand::Copy(_))))
        .collect();
    assert_eq!(reads, [true, false]);
}

#[test]
fn desugaring_a_program_twice_changes_nothing() {
    let (mut program, errors) = IndexedProgram::build(&parse(
        "
        struct Node { next: &mut Node }
        struct Two { a: Node b: & i64 }
        fn f(x: & i64, n: Node, $return: &out & i64) {
          l: & i64;
          entry: return
        }
        ",
    ));
    assert!(errors.is_empty());
    desugar_program(&mut program);
    let once = format!("{:?}", program.functions.get("f"));
    let types = format!("{:?} {:?}", program.types.get("Node"), program.types.get("Two"));
    assert_eq!(program.types.get("Two").unwrap().meta().params.lifetime_params.len(), 1);
    desugar_program(&mut program);
    assert_eq!(format!("{:?}", program.functions.get("f")), once);
    assert_eq!(
        format!("{:?} {:?}", program.types.get("Node"), program.types.get("Two")),
        types
    );
}

#[test]
fn no_method_mentions_self_after_desugaring() {
    let (mut program, errors) = IndexedProgram::build(&parse(
        "
        trait Show { fn show(value: & Self); }
        struct<T> S { value: T }
        impl<X> Show for S<X> {
          fn show(value: & Self) {
            l: [Self; 2];
            entry:
              call <Self as Show>::show(copy value);
              return
          }
        }
        ",
    ));
    assert!(errors.is_empty());
    desugar_self_alias(&mut program);
    let method = &program.impls[0].methods[0];
    let body = method.body.as_ref().unwrap();
    assert_eq!(method.params[0].ty.text(), "& S<X>");
    assert_eq!(body.locals[0].ty.text(), "[S<X>; 2]");
    let StatementKind::Call(Operand::Const(ConstVal::TraitFn { self_ty, .. }), _) =
        &body.blocks[0].statements[0].kind
    else {
        panic!("expected a call of a trait method");
    };
    assert_eq!(self_ty.text(), "S<X>");
    assert_eq!(program.traits.get("Show").unwrap().methods[0].params[0].ty.text(), "& Self");
}

// ---------- Instantiations ----------

fn function_names(program: &IndexedProgram) -> Vec<String> {
    program.functions().iter().map(|(_, f)| f.meta.name.clone()).collect()
}

#[test]
fn each_instantiation_is_made_once_in_the_order_of_discovery() {
    let (program, errors) = IndexedProgram::build(&parse(
        "
        struct<T> Box { value: T }
        enum<T> Opt { None: unit Some: T }
        fn<T> id(x: T, b: Box<T>) { entry: return }
        fn<T> unused(x: T) { entry: return }
        fn main(b: Box<i64>, c: Box<Box<i64>>, x: i64) {
          o: Opt<bool>;
          entry:
            call id<i64>(copy x, move b);
            call id<i64>(copy x, move b);
            o = Opt<bool>::Some(true);
            return
        }
        ",
    ));
    assert!(errors.is_empty());
    let r = try_monomorphize(&program, 100).expect("the work ends");
    assert_eq!(function_names(&r), ["id<i64>", "main"]);
    for name in ["Box<i64>", "Box<Box<i64>>", "Opt<bool>"] {
        assert!(r.types.get(name).is_some(), "missing {}", name);
    }
    assert!(r.types.get("Box").is_none());
    assert!(r.functions.get("unused").is_none());
    assert!(r.functions.get("$i64_add").is_some());
    let main = r.functions.get("main").unwrap();
    assert_eq!(main.params[1].ty.text(), "Box<Box<i64>>");
    assert!(matches!(&main.params[1].ty.kind, TypeKind::Custom(i) if i.type_args.is_empty()));
    let body = main.body.as_ref().unwrap();
    let StatementKind::Call(Operand::Const(ConstVal::FnName(name, args)), _) =
        &body.blocks[0].statements[0].kind
    else {
        panic!("expected a call");
    };
    assert_eq!(name, "id<i64>");
    assert!(args.is_empty());
    let StatementKind::Assign(_, RValue::EnumConstr(name, args, variant, _)) =
        &body.blocks[0].statements[2].kind
    else {
        panic!("expected a construction");
    };
    assert_eq!((name.as_str(), args.len(), variant.as_str()), ("Opt<bool>", 0, "Some"));
}

#[test]
fn methods_become_functions() {
    let (program, errors) = IndexedProgram::build(&parse(
        "
        trait Show { fn show(value: & Self); }
        struct<T> S: Copy + Drop { value: T }
        impl<X: Copy> Show for S<X> { fn show(value: & S<X>) { entry: return } }
        impl<X> S<X> { fn<Y> keep(value: X, other: Y) { entry: return } }
        fn main(s: & S<i64>) {
          entry:
            call <S<i64> as Show>::show(copy s);
            call <S<i64>>::keep<bool>(1, true);
            return
        }
        ",
    ));
    assert!(errors.is_empty());
    let r = monomorphize(program);
    assert!(r.impls.is_empty() && r.inherent_impls.is_empty());
    assert!(r.functions.get("<S<i64> as Show>::show").is_some());
    let keep = r.functions.get("<S<i64>>::keep<bool>").unwrap();
    assert!(keep.meta.params.type_params.is_empty());
    let types: Vec<String> = keep.params.iter().map(|p| p.ty.text()).collect();
    assert_eq!(types, ["i64", "bool"]);
}

#[test]
fn work_without_end_or_with_failures_gives_nothing() {
    let endless = "
        struct<T> Box { value: T }
        fn<T> grow(x: T) { entry: call grow<Box<T>>(copy x); return }
        fn main() { entry: call grow<i64>(1); return }
        ";
    let undecided = "
        extern fn consume(x: i64);
        fn main(x: i64) { entry: call consume(take x); return }
        ";
    let no_impl = "
        trait Show { fn show(value: & Self); }
        struct S { x: i64 }
        fn main(s: & S) { entry: call <S as Show>::show(copy s); return }
        ";
    let overlapping = "
        trait Show { fn show(value: & Self); }
        struct<T> S { value: T }
        impl<T> Show for S<T> { fn show(value: & S<T>) { entry: return } }
        impl Show for S<i64> { fn show(value: & S<i64>) { entry: return } }
        fn main(s: & S<i64>) { entry: call <S<i64> as Show>::show(copy s); return }
        ";
    for src in [endless, undecided, no_impl, overlapping] {
        let (program, errors) = IndexedProgram::build(&parse(src));
        assert!(errors.is_empty());
        assert!(try_monomorphize(&program, 200).is_none(), "for {}", src);
    }
}

#[test]
fn needing_twice_is_needing_once() {
    let mut needs = Needs::new();
    let args = vec![i64_ty()];
    let symbol = "Box<i64>".to_string();
    assert!(needs.need_named("Box", &args, &symbol));
    assert!(needs.need_named("Box", &args, &symbol));
    assert_eq!((needs.needed.len(), needs.pending.len()), (1, 1));
    assert!(!needs.need_named("Box", &args, &"Other".to_string()));
    assert!(needs.need_named("Box", &vec![bool_ty()], &"Box<bool>".to_string()));
    assert_eq!((needs.needed.len(), needs.pending.len()), (2, 2));
    assert!(needs.fold_type(&param_ty("T")).is_none());
}

// ---------- Lifetimes ----------

#[test]
fn a_missing_bound_is_reported() {
    assert_err(
        "
        fn<'a, 'b> f(x: & 'a i64, $return: &out & 'b i64) {
          entry:
            $return.* = copy x;
            return
        }
        ",
        "[LT-LifetimeMismatch]",
    );
    assert_no_diagnostics(
        "
        fn<'a: 'b, 'b> f(x: & 'a i64, $return: &out & 'b i64) {
          entry:
            $return.* = copy x;
            return
        }
        ",
    );
}

#[test]
fn a_borrow_of_a_local_does_not_escape() {
    assert_err(
        "
        fn<'a> f($return: &out & 'a i64) {
          x: i64;
          entry:
            x = 1;
            $return.* = & x;
            return
        }
        ",
        "borrow escapes function",
    );
}

#[test]
fn a_declared_type_needs_the_bounds_of_its_fields() {
    assert_err(
        "
        struct<'x, 'y: 'x> Inner { a: & 'x i64 b: & 'y i64 }
        struct<'p, 'q> Outer { i: Inner<'p, 'q> }
        fn f() { entry: return }
        ",
        "[LT-LifetimeMismatch]",
    );
}

// ---------- Lowering ----------

#[test]
fn a_program_that_is_not_concrete_is_not_lowered() {
    let program = parse("fn<T> f(x: T) { y: T; entry: y = copy x; return }");
    let (env, _) = IndexedProgram::build(&program);
    assert!(try_lower_mir_to_llvm(&program, &env).is_none());
}

#[test]
fn float_constants_are_written_as_bits() {
    let ll = ll_of(
        "
        fn f() {
          x: f64;
          y: f32;
          entry:
            x = 1.5f64;
            y = 0.1f32;
            return
        }
        ",
    );
    assert_contains(&ll, &format!("store double 0x{:016X}", 1.5f64.to_bits()));
    assert_contains(&ll, &format!("store float 0x{:016X}", (0.1f32 as f64).to_bits()));
}

// ---------- Passes that settle ----------

#[test]
fn functions_are_changed_in_place_by_their_position() {
    let mut program = parse(
        "
        fn a() { entry: return }
        struct S { x: i64 }
        fn b() { entry: return }
        ",
    );
    assert!(program.functions_mut(2).is_none());
    program.functions_mut(1).expect("two functions").meta.name = "c".to_string();
    let names: Vec<&str> = program.functions().iter().map(|f| f.meta.name.as_str()).collect();
    assert_eq!(names, ["a", "c"]);
    assert_eq!(program.declarations.len(), 3);
}

#[test]
fn ends_of_loans_are_put_in_once() {
    let sources = [
        // A loop and a branch: ends inside blocks and on edges.
        "
        extern fn consume(x: i64);
        fn f(x: i64, b: bool) {
          r: &mut i64;
          entry:
            r = &mut x;
            goto head
          head:
            branch(copy b) [true: body, false: done]
          body:
            call consume(copy r.*);
            goto head
          done:
            return
        }
        ",
        // A chain of reborrows that is handed back in order.
        "
        extern fn consume(x: i64);
        fn f(x: i64) {
          r: &mut i64;
          s: &mut i64;
          entry:
            r = &mut x;
            s = &mut r.*;
            call consume(copy s.*);
            call consume(copy r.*);
            return
        }
        ",
        // A parameter that nothing uses, and a borrow that is never read.
        "
        fn f(p: &mut i64, x: i64) {
          r: & i64;
          entry:
            r = & x;
            return
        }
        ",
        // A reference that is taken from itself.
        "
        fn f(p: & i64) {
          entry:
            p = & p.*;
            return
        }
        ",
        // A source that gets a new value between two uses in one block.
        "
        extern fn consume(x: i64);
        fn f(p: & i64, x: i64) {
          s: & i64;
          entry:
            s = & p.*;
            call consume(copy s.*);
            p = & x;
            call consume(copy s.*);
            return
        }
        ",
        // A source that gets a new value before a loop uses the reference.
        "
        extern fn consume(x: i64);
        fn f(p: & i64, x: i64, b: bool) {
          s: & i64;
          entry:
            s = & p.*;
            p = & x;
            goto head
          head:
            branch(copy b) [true: body, false: done]
          body:
            call consume(copy s.*);
            goto head
          done:
            return
        }
        ",
    ];
    for src in sources {
        let (before, once, twice) = elaborated_twice(src);
        assert_ne!(once, before);
        assert_eq!(twice, once);
    }
}

/// The text of a program, and that after one and after two elaborations.
fn elaborated_twice(src: &str) -> (String, String, String) {
    let mut program = parse(src);
    let before = program_text(&program);
    let env = IndexedProgram::build(&program).0;
    nll::elaborate(&mut program, &env);
    let once = program_text(&program);
    let env = IndexedProgram::build(&program).0;
    nll::elaborate(&mut program, &env);
    let twice = program_text(&program);
    (before, once, twice)
}

#[test]
fn ends_out_of_order_are_put_in_again() {
    let sources = [
        // The last use of a reference gives its source a new value.
        "
        extern fn consume(x: i64);
        fn f(p: & i64) {
          s: & i64;
          entry:
            s = & p.*;
            p = copy s;
            call consume(copy p.*);
            return
        }
        ",
        // The last use of a reference moves its source away.
        "
        extern fn consume(a: &mut i64, b: & i64);
        fn f(x: i64) {
          p: &mut i64;
          s: & i64;
          entry:
            p = &mut x;
            s = & p.*;
            call consume(move p, copy s);
            return
        }
        ",
        // Control comes back to where an unused parameter ends.
        "
        fn f(p: & i64, b: bool) {
          entry:
            branch(copy b) [true: entry, false: done]
          done:
            return
        }
        ",
    ];
    for src in sources {
        let (before, once, twice) = elaborated_twice(src);
        assert_ne!(once, before);
        assert_ne!(twice, once);
    }
}

#[test]
fn nothing_but_ends_of_borrows_is_put_in() {
    let src = "
        extern fn consume(x: i64);
        fn f(x: i64, b: bool) {
          r: &mut i64;
          s: &mut i64;
          entry:
            r = &mut x;
            s = &mut r.*;
            call consume(copy s.*);
            goto head
          head:
            branch(copy b) [true: body, false: done]
          body:
            call consume(copy r.*);
            goto head
          done:
            return
        }
        ";
    let plain = parse(src);
    let mut program = parse(src);
    let env = IndexedProgram::build(&program).0;
    nll::elaborate(&mut program, &env);
    let old = find_fn(&plain, "f").body.as_ref().unwrap();
    let new = find_fn(&program, "f").body.as_ref().unwrap();
    let is_end = |s: &Statement| matches!(s.kind, StatementKind::Unborrow(_));
    let mut ends: usize = 0;
    let mut added: usize = 0;
    for block in &new.blocks {
        let kept: Vec<&StatementKind> =
            block.statements.iter().filter(|s| !is_end(s)).map(|s| &s.kind).collect();
        ends += block.statements.len() - kept.len();
        match old.blocks.iter().find(|b| b.label == block.label) {
            Some(b) => {
                let before: Vec<&StatementKind> = b.statements.iter().map(|s| &s.kind).collect();
                assert_eq!(kept, before);
            }
            None => {
                added += 1;
                assert!(kept.is_empty());
                assert!(matches!(&block.terminator.kind, TerminatorKind::Goto(l) if l == "done"));
            }
        }
    }
    assert_eq!(new.blocks.len(), old.blocks.len() + 1);
    assert_eq!((ends, added), (2, 1));
}

#[test]
fn an_unused_parameter_ends_at_the_start_of_a_block_that_is_entered_again() {
    let mut program = parse(
        "
        fn f(r: &mut i64, b: bool) {
          entry:
            branch(copy b) [true: entry, false: done]
          done:
            return
        }
        ",
    );
    let env = IndexedProgram::build(&program).0;
    nll::elaborate(&mut program, &env);
    let body = find_fn(&program, "f").body.as_ref().unwrap();
    assert_eq!(body.blocks.len(), 2);
    assert_eq!(body.blocks[0].label, "entry");
    assert_eq!(body.blocks[0].statements.len(), 1);
    assert!(
        matches!(&body.blocks[0].statements[0].kind, StatementKind::Unborrow(Place::Var(r)) if r == "r"),
    );
    assert!(body.blocks[1].statements.is_empty());
}

#[test]
fn ends_are_planned_on_the_function_that_the_table_has() {
    let mut program = parse(
        "
        fn f(r: &mut i64) {
          entry:
            r.* = 1;
            r.* = 2;
            return
        }
        ",
    );
    let other = parse(
        "
        fn f(r: &mut i64) {
          entry:
            r.* = 1;
            return
        }
        ",
    );
    let env = IndexedProgram::build(&other).0;
    nll::elaborate(&mut program, &env);
    let body = find_fn(&program, "f").body.as_ref().unwrap();
    let kinds: Vec<bool> = body.blocks[0]
        .statements
        .iter()
        .map(|s| matches!(s.kind, StatementKind::Unborrow(_)))
        .collect();
    assert_eq!(kinds, vec![false, true, false]);

    let mut program = parse("fn g(r: &mut i64) { entry: r.* = 1; return }");
    let before = program_text(&program);
    nll::elaborate(&mut program, &env);
    assert_eq!(program_text(&program), before);
}

#[test]
fn a_raw_address_is_not_checked_against_loans() {
    let mut program = parse(
        "
        extern fn set(x: &mut i64);
        fn f(i: i64, a: [i64; 3], q: *i64) {
          r: &mut i64;
          p: *i64;
          entry:
            r = &mut i;
            p = copy q;
            call set(move r);
            return
        }
        ",
    );
    for d in program.declarations.iter_mut() {
        if let Declaration::Fn(f) = d {
            if let Some(body) = &mut f.body {
                let element = index_place(var_place("a"), copy_op(var_place("i")));
                body.blocks[0].statements[1].kind =
                    StatementKind::Assign(var_place("p"), RValue::RawRef(element));
            }
        }
    }
    let mut d = Diagnostics::default();
    check(program, &mut d);
    let errors: Vec<String> = d.errors.iter().map(render).collect();
    assert!(!errors.iter().any(|e| e.contains("LoanConflict")), "{:?}", errors);
}

#[test]
fn replacing_self_twice_changes_nothing() {
    let (mut program, errors) = IndexedProgram::build(&parse(
        "
        struct S { value: i64 }
        impl S {
          fn get(value: & Self) {
            l: [Self; 2];
            entry: return
          }
        }
        ",
    ));
    assert!(errors.is_empty());
    desugar_self_alias(&mut program);
    let once = format!("{:?}", program.inherent_impls);
    desugar_self_alias(&mut program);
    assert_eq!(format!("{:?}", program.inherent_impls), once);
}

#[test]
fn lanes_of_an_enum_add_up_to_its_size() {
    let src = "
        struct P { a: i64 b: i64 c: bool }
        enum E { A: P B: unit }
        fn f(e: &mut E) { entry: return }
        ";
    let env = env_of(src);
    assert_eq!(size_of(&custom_ty("E"), &env), 32);
    assert_eq!(align_of(&custom_ty("E"), &env), 8);
    let ll = ll_of(src);
    assert!(ll.contains("%E = type { i16, [6 x i8], [3 x i64] }"), "{}", ll);
    for name in ["P", "E"] {
        let ty = custom_ty(name);
        assert_eq!(size_of(&ty, &env) % align_of(&ty, &env), 0);
    }
}

#[test]
fn a_declare_line_comes_once() {
    let ll = ll_of(
        "
        fn f(x: i64) {
          y: i64;
          r: &out i64;
          entry:
            r = &out y;
            call $i64_popcount(copy x, move r);
            r = &out y;
            call $i64_popcount(copy x, move r);
            return
        }
        ",
    );
    assert_eq!(ll.matches("declare i64 @llvm.ctpop.i64(i64)").count(), 1, "{}", ll);
    assert!(!ll.contains("$i64_popcount"));
}

// ---------- What indexes read ----------

#[test]
fn an_index_keeps_an_earlier_use_a_copy() {
    let program = elaborate_source(
        "
        extern fn consume(x: i64);
        fn f(i: i64, a: [i64; 3]) {
          x: i64;
          entry:
            call consume(move i);
            x = copy a[copy i];
            return
        }
        ",
    );
    assert!(matches!(call_arg(&program, "f", 0), Operand::Copy(Place::Var(x)) if x == "i"));
}

#[test]
fn a_loop_without_end_keeps_an_earlier_use_a_copy() {
    let program = elaborate_source(
        "
        extern fn consume(x: i64);
        fn f(i: i64) {
          entry:
            call consume(move i);
            goto entry
        }
        ",
    );
    assert!(matches!(call_arg(&program, "f", 0), Operand::Copy(Place::Var(x)) if x == "i"));
}

#[test]
fn an_index_through_a_borrower_comes_before_its_end() {
    let mut program = parse(
        "
        extern fn consume(x: i64);
        fn f(i: i64, a: [i64; 3]) {
          r: & i64;
          entry:
            r = & i;
            call consume(copy a[copy r.*]);
            return
        }
        ",
    );
    let env = IndexedProgram::build(&program).0;
    nll::elaborate(&mut program, &env);
    let body = find_fn(&program, "f").body.as_ref().unwrap();
    let kinds: Vec<String> = body.blocks[0].statements.iter().map(statement_text).collect();
    assert_eq!(kinds.len(), 3, "{:?}", kinds);
    assert!(matches!(body.blocks[0].statements[1].kind, StatementKind::Call(_, _)), "{:?}", kinds);
    assert!(
        matches!(&body.blocks[0].statements[2].kind, StatementKind::Unborrow(Place::Var(r)) if r == "r"),
        "{:?}",
        kinds
    );
}

#[test]
fn an_index_is_checked_against_loans() {
    let src = "
        extern fn consume(x: i64);
        extern fn set(x: &mut i64);
        fn f(i: i64, a: [i64; 3]) {
          r: &mut i64;
          entry:
            r = &mut i;
            call consume(copy a[copy i]);
            call set(move r);
            return
        }
        ";
    assert_err(src, "[LT-LoanConflict]");
}

#[test]
fn every_use_of_a_type_has_the_lifetimes_that_it_takes_in_the_end() {
    let (mut program, errors) = IndexedProgram::build(&parse(
        "
        struct V { p: & i64 q: & i64 }
        struct W { r: & i64 v: V }
        struct X { w: W }
        ",
    ));
    assert!(errors.is_empty());
    desugar_program(&mut program);
    let taken = |name: &str| program.types.get(name).unwrap().meta().params.lifetime_params.len();
    assert_eq!((taken("V"), taken("W"), taken("X")), (2, 2, 2));
    let args = |name: &str, field: usize| {
        let TypeDecl::Struct(s) = program.types.get(name).unwrap() else {
            panic!("expected a struct");
        };
        let TypeKind::Custom(inst) = &s.fields[field].ty.kind else {
            panic!("expected a declared type");
        };
        inst.lifetime_args.len()
    };
    assert_eq!((args("W", 1), args("X", 0)), (2, 2));
}

#[test]
fn instantiations_that_differ_in_lifetimes_are_one() {
    let (program, errors) = IndexedProgram::build(&parse(
        "
        struct<T> Box { v: T }
        fn<'a, 'b> f(x: Box<&'a i64>, y: Box<&'b i64>) { entry: return }
        ",
    ));
    assert!(errors.is_empty());
    let r = monomorphize(program);
    assert_eq!(r.types.len(), 1);
    assert!(r.types.get("Box<& i64>").is_some() || r.types.get("Box<&i64>").is_some());
    let f = r.functions.get("f").unwrap();
    let name = |i: usize| match &f.params[i].ty.kind {
        TypeKind::Custom(inst) => inst.name.clone(),
        _ => panic!("expected a declared type"),
    };
    assert_eq!(name(0), name(1));
    assert!(r.types.get(&name(0)).is_some());
}

#[test]
fn names_of_instantiations_are_quoted() {
    let (program, errors) = IndexedProgram::build(&parse(
        "
        struct<T> Box { v: T }
        fn<T> id(x: T) { entry: return }
        fn f(b: Box<i64>, x: i64) {
          c: Box<i64>;
          entry: call id<i64>(copy x); return
        }
        ",
    ));
    assert!(errors.is_empty());
    let r = monomorphize(program);
    let mut declarations: Vec<Declaration> = Vec::new();
    for name in ["Box<i64>"] {
        let TypeDecl::Struct(s) = r.types.get(name).unwrap() else {
            panic!("expected a struct");
        };
        declarations.push(Declaration::Struct(s.clone()));
    }
    for name in ["f", "id<i64>"] {
        declarations.push(Declaration::Fn(r.functions.get(name).unwrap().clone()));
    }
    let program = Program { declarations, source: parse("").source };
    let (env, _) = IndexedProgram::build(&program);
    let ll = lower_mir_to_llvm(&program, &env);
    assert_contains(&ll, "%\"Box<i64>\" = type { i64 }");
    assert_contains(&ll, "alloca %\"Box<i64>\"");
    assert_contains(&ll, "define void @\"id<i64>\"(i64 %arg.x)");
    assert_contains(&ll, "call void @\"id<i64>\"(");
    assert_contains(&ll, "define void @f(");
}

// ---------- Sources, names and headers ----------

#[test]
fn types_of_instantiations_stay_where_they_were_written() {
    let (program, errors) = IndexedProgram::build(&parse(
        "
        struct<T> Pair { a: T, n: i64 }
        fn<T> id(x: T, k: bool) { t: T; entry: return }
        fn f(p: Pair<bool>, x: i64) { entry: call id<i64>(copy x, true); return }
        ",
    ));
    assert!(errors.is_empty());
    let TypeDecl::Struct(pair) = program.types.get("Pair").unwrap().clone() else {
        panic!("expected a struct");
    };
    let id = program.functions.get("id").unwrap().clone();
    let f = program.functions.get("f").unwrap().clone();
    let TypeKind::Custom(mentioned) = &f.params[0].ty.kind else {
        panic!("expected a declared type");
    };
    let argument = mentioned.type_args[0].source;
    let r = monomorphize(program);
    let TypeDecl::Struct(made) = r.types.get("Pair<bool>").unwrap() else {
        panic!("expected a struct");
    };
    assert_eq!(made.fields[0].ty.source, argument);
    assert_eq!(made.fields[1].ty.source, pair.fields[1].ty.source);
    let g = r.functions.get("id<i64>").unwrap();
    assert_eq!(g.params[1].ty.source, id.params[1].ty.source);
    assert_ne!(g.params[0].ty.source, id.params[0].ty.source);
    assert_eq!(g.body.as_ref().unwrap().locals[0].ty.source, g.params[0].ty.source);
    assert_eq!(r.functions.get("f").unwrap().params[0].ty.source, f.params[0].ty.source);
}

#[test]
fn an_allocator_never_gives_a_taken_name() {
    let program = parse("fn f(qt0: i64) { qt2: i64; entry: return }");
    let Declaration::Fn(f) = &program.declarations[0] else {
        panic!("expected a function");
    };
    let mut body = f.body.clone().unwrap();
    let mut names = body.local_allocator(&f.params, "qt");
    let source = f.params[0].source;
    for expected in ["qt1", "qt3", "qt4"] {
        let ty = i64_ty();
        assert_eq!(names.add_local(&mut body, ty, source), var_place(expected));
    }
    let all: Vec<&str> = body.locals.iter().map(|l| l.name.as_str()).collect();
    assert_eq!(all, vec!["qt2", "qt1", "qt3", "qt4"]);
}

#[test]
fn a_header_matches_what_its_parameters_can_give() {
    let (program, errors) = IndexedProgram::build(&parse(
        "
        trait<A> Tr { fn m(x: A); }
        struct<A, B> S { a: A, b: B }
        impl<X, Y> Tr<Y> for S<X, Y> { fn m(x: Y) { entry: return } }
        fn f(s: S<bool, i64>, t: S<i64, bool>) { entry: return }
        ",
    ));
    assert!(errors.is_empty());
    let imp = &program.impls[0];
    let f = program.functions.get("f").unwrap();
    let path = Instance::new("Tr", Vec::new(), vec![i64_ty()]);
    let found = match_impl_header(imp, &path, &f.params[0].ty).expect("the header matches");
    assert_eq!(found.type_args.len(), 2);
    assert_eq!(found.type_args[0].kind, TypeKind::Bool);
    assert_eq!(found.type_args[1].kind, TypeKind::Int(IntTy::I64));
    assert!(match_impl_header(imp, &path, &f.params[1].ty).is_none());
    assert!(match_impl_header(imp, &path, &bool_ty()).is_none());
}

#[test]
fn types_of_places_come_from_their_declarations() {
    let mut program = parse(
        "
        struct<T> Pair { a: T, n: i64 }
        fn f(p: Pair<bool>, r: & Pair<i64>) { entry: return }
        ",
    );
    let (env, errors) = IndexedProgram::build(&program);
    assert!(errors.is_empty());
    let f = find_fn(&program, "f").clone();
    let TypeDecl::Struct(pair) = env.types.get("Pair").unwrap() else {
        panic!("expected a struct");
    };
    let Declaration::Struct(written) = &program.declarations[0] else {
        panic!("expected a struct");
    };
    assert_eq!(pair.fields[1].ty.source, written.fields[1].ty.source);
    let local = LocalEnv::for_decl(&env, &f.meta.params);
    let locals = f.locals_map();
    let source = |place: Place| local.type_of_place(&place, &locals).unwrap().source;
    assert_eq!(source(var_place("p")), f.params[0].ty.source);
    assert_eq!(source(field_place(var_place("p"), "n")), written.fields[1].ty.source);
    let TypeKind::Custom(inst) = &f.params[0].ty.kind else {
        panic!("expected a declared type");
    };
    assert_eq!(source(field_place(var_place("p"), "a")), inst.type_args[0].source);
    let TypeKind::Ref(_, _, pointee) = &f.params[1].ty.kind else {
        panic!("expected a reference");
    };
    assert_eq!(source(deref_place(var_place("r"))), pointee.source);
    nll::elaborate(&mut program, &env);
    assert_eq!(find_fn(&program, "f").params[0].ty.source, f.params[0].ty.source);
}
