//! A JSON-like structured value and its parser.
//!
//! The grammar accepted here is the usual JSON shape: `null`, `true`,
//! `false`, numbers (see `number::is_json_number`), strings with the short
//! escapes `\" \\ \/ \b \f \n \r \t`, arrays and objects, with whitespace
//! between tokens. Unicode escapes are not part of this grammar; a cell
//! using them simply stays a plain string attribute. Later duplicate keys
//! of an object replace earlier ones.
//!
//! The parser is defined as a character-at-a-time state machine: a spec
//! fold over the input defines the accepted language and its value, and the
//! executable parser mirrors that fold step by step.

use vstd::prelude::*;

use crate::number::is_json_number;

verus! {

/// A structured value parsed from a text cell.
#[derive(Debug, PartialEq, Eq)]
pub enum JsonValue {
    /// The literal `null`.
    Null,
    /// The literals `true` and `false`.
    Bool(bool),
    /// A number, kept as its verbatim source text.
    Num(String),
    /// A string, with escapes decoded.
    Str(String),
    /// An array of values.
    Arr(Vec<JsonValue>),
    /// An object: named members in source order, duplicate keys collapsed.
    Obj(Vec<(String, JsonValue)>),
}

/// The mathematical model of a structured value.
pub enum JsonModel {
    Null,
    Bool(bool),
    Num(Seq<char>),
    Str(Seq<char>),
    Arr(Seq<JsonModel>),
    Obj(Seq<(Seq<char>, JsonModel)>),
}

/// The model of a structured value, structurally.
pub open spec fn json_model(v: JsonValue) -> JsonModel
    decreases v,
{
    match v {
        JsonValue::Null => JsonModel::Null,
        JsonValue::Bool(b) => JsonModel::Bool(b),
        JsonValue::Num(t) => JsonModel::Num(t@),
        JsonValue::Str(t) => JsonModel::Str(t@),
        JsonValue::Arr(es) => JsonModel::Arr(json_seq_model(es@)),
        JsonValue::Obj(es) => JsonModel::Obj(json_entries_model(es@)),
    }
}

/// The models of a sequence of structured values, elementwise.
pub open spec fn json_seq_model(s: Seq<JsonValue>) -> Seq<JsonModel>
    decreases s,
{
    if s.len() == 0 {
        Seq::empty()
    } else {
        seq![json_model(s[0])] + json_seq_model(s.drop_first())
    }
}

/// The models of a sequence of named structured values, elementwise.
pub open spec fn json_entries_model(s: Seq<(String, JsonValue)>) -> Seq<(Seq<char>, JsonModel)>
    decreases s,
{
    if s.len() == 0 {
        Seq::empty()
    } else {
        seq![(s[0].0@, json_model(s[0].1))] + json_entries_model(s.drop_first())
    }
}

impl View for JsonValue {
    type V = JsonModel;

    open spec fn view(&self) -> JsonModel {
        json_model(*self)
    }
}

/// Basic shape facts about element models.
pub proof fn lemma_json_seq_model_len(s: Seq<JsonValue>)
    ensures
        json_seq_model(s).len() == s.len(),
        forall|i: int| 0 <= i < s.len() ==> json_seq_model(s)[i] == json_model(s[i]),
    decreases s,
{
    if s.len() > 0 {
        lemma_json_seq_model_len(s.drop_first());
    }
}

/// Basic shape facts about entry models.
pub proof fn lemma_json_entries_model_len(s: Seq<(String, JsonValue)>)
    ensures
        json_entries_model(s).len() == s.len(),
        forall|i: int| 0 <= i < s.len() ==> json_entries_model(s)[i] == (s[i].0@, json_model(
            s[i].1,
        )),
    decreases s,
{
    if s.len() > 0 {
        lemma_json_entries_model_len(s.drop_first());
    }
}

/// JSON whitespace.
pub open spec fn is_ws(c: char) -> bool {
    c == ' ' || c == '\t' || c == '\n' || c == '\r'
}

/// Characters that may continue a bare token (a number or a literal).
pub open spec fn is_tok_char(c: char) -> bool {
    ('0' <= c && c <= '9') || ('a' <= c && c <= 'z') || ('A' <= c && c <= 'Z') || c == '+' || c
        == '-' || c == '.'
}

/// The characters of the literal `null`.
pub open spec fn null_chars() -> Seq<char> {
    seq!['n', 'u', 'l', 'l']
}

/// The characters of the literal `true`.
pub open spec fn true_chars() -> Seq<char> {
    seq!['t', 'r', 'u', 'e']
}

/// The characters of the literal `false`.
pub open spec fn false_chars() -> Seq<char> {
    seq!['f', 'a', 'l', 's', 'e']
}

/// An open container on the parser's stack.
pub enum PFrame {
    /// An array with the elements parsed so far.
    Arr(Seq<JsonModel>),
    /// An object with the members parsed so far.
    Obj(Seq<(Seq<char>, JsonModel)>),
    /// An object whose next member's key has been read.
    ObjPend(Seq<(Seq<char>, JsonModel)>, Seq<char>),
}

/// What the parser expects next.
pub enum PMode {
    /// A value must start here.
    Val,
    /// Directly after `[`: a value or `]`.
    ArrFirst,
    /// Directly after `{`: a key or `}`.
    KeyFirst,
    /// After a comma in an object: a key.
    Key,
    /// After a key: a colon.
    Colon,
    /// After a completed value inside a container.
    AfterVal,
    /// Inside a string: content so far, whether after a backslash, and
    /// whether the string is an object key.
    InStr(Seq<char>, bool, bool),
    /// Inside a bare token: its characters so far.
    InTok(Seq<char>),
    /// The top-level value is complete; only whitespace may follow.
    Done(JsonModel),
    /// The input is not in the grammar.
    Fail,
}

/// The whole parser state.
pub struct PState {
    pub stack: Seq<PFrame>,
    pub mode: PMode,
}

/// The initial parser state.
pub open spec fn p_init() -> PState {
    PState { stack: Seq::empty(), mode: PMode::Val }
}

/// The failed parser state, with an empty stack.
pub open spec fn p_fail() -> PState {
    PState { stack: Seq::empty(), mode: PMode::Fail }
}

/// Adds a member to an object's entries; a repeated key replaces the
/// earlier member in place.
pub open spec fn upsert(
    es: Seq<(Seq<char>, JsonModel)>,
    k: Seq<char>,
    v: JsonModel,
) -> Seq<(Seq<char>, JsonModel)>
    decreases es,
{
    if es.len() == 0 {
        seq![(k, v)]
    } else if es[0].0 == k {
        seq![(k, v)] + es.drop_first()
    } else {
        seq![es[0]] + upsert(es.drop_first(), k, v)
    }
}

/// Hands a completed value to the innermost open container, or finishes
/// the parse when none is open.
pub open spec fn p_complete(stack: Seq<PFrame>, v: JsonModel) -> PState {
    if stack.len() == 0 {
        PState { stack, mode: PMode::Done(v) }
    } else {
        match stack.last() {
            PFrame::Arr(es) => PState {
                stack: stack.update(stack.len() - 1, PFrame::Arr(es.push(v))),
                mode: PMode::AfterVal,
            },
            PFrame::ObjPend(es, k) => PState {
                stack: stack.update(stack.len() - 1, PFrame::Obj(upsert(es, k, v))),
                mode: PMode::AfterVal,
            },
            PFrame::Obj(_) => p_fail(),
        }
    }
}

/// Classifies a finished bare token.
pub open spec fn finish_token(buf: Seq<char>) -> Option<JsonModel> {
    if buf == null_chars() {
        Some(JsonModel::Null)
    } else if buf == true_chars() {
        Some(JsonModel::Bool(true))
    } else if buf == false_chars() {
        Some(JsonModel::Bool(false))
    } else if is_json_number(buf) {
        Some(JsonModel::Num(buf))
    } else {
        None
    }
}

/// Starts a value at `c`.
pub open spec fn p_value_start(stack: Seq<PFrame>, c: char) -> PState {
    if c == '[' {
        PState { stack: stack.push(PFrame::Arr(Seq::empty())), mode: PMode::ArrFirst }
    } else if c == '{' {
        PState { stack: stack.push(PFrame::Obj(Seq::empty())), mode: PMode::KeyFirst }
    } else if c == '"' {
        PState { stack, mode: PMode::InStr(Seq::empty(), false, false) }
    } else if is_tok_char(c) {
        PState { stack, mode: PMode::InTok(seq![c]) }
    } else {
        p_fail()
    }
}

/// Handles `c` right after a completed value: a comma continues the open
/// container, a matching bracket closes it.
pub open spec fn p_after(stack: Seq<PFrame>, c: char) -> PState {
    if is_ws(c) {
        PState { stack, mode: PMode::AfterVal }
    } else if stack.len() == 0 {
        p_fail()
    } else if c == ',' {
        match stack.last() {
            PFrame::Arr(_) => PState { stack, mode: PMode::Val },
            PFrame::Obj(_) => PState { stack, mode: PMode::Key },
            PFrame::ObjPend(_, _) => p_fail(),
        }
    } else if c == ']' {
        match stack.last() {
            PFrame::Arr(es) => p_complete(stack.drop_last(), JsonModel::Arr(es)),
            _ => p_fail(),
        }
    } else if c == '}' {
        match stack.last() {
            PFrame::Obj(es) => p_complete(stack.drop_last(), JsonModel::Obj(es)),
            _ => p_fail(),
        }
    } else {
        p_fail()
    }
}

/// The decoded character of a short escape, if the escape is legal.
pub open spec fn escape_char(c: char) -> Option<char> {
    if c == '"' {
        Some('"')
    } else if c == '\\' {
        Some('\\')
    } else if c == '/' {
        Some('/')
    } else if c == 'b' {
        Some('\u{8}')
    } else if c == 'f' {
        Some('\u{c}')
    } else if c == 'n' {
        Some('\n')
    } else if c == 'r' {
        Some('\r')
    } else if c == 't' {
        Some('\t')
    } else {
        None
    }
}

/// One step of the parser on one character.
pub open spec fn p_step(st: PState, c: char) -> PState {
    match st.mode {
        PMode::Fail => p_fail(),
        PMode::Done(v) => if is_ws(c) {
            st
        } else {
            p_fail()
        },
        PMode::Val => if is_ws(c) {
            st
        } else {
            p_value_start(st.stack, c)
        },
        PMode::ArrFirst => if is_ws(c) {
            st
        } else if c == ']' {
            if st.stack.len() > 0 {
                match st.stack.last() {
                    PFrame::Arr(es) => p_complete(st.stack.drop_last(), JsonModel::Arr(es)),
                    _ => p_fail(),
                }
            } else {
                p_fail()
            }
        } else {
            p_value_start(st.stack, c)
        },
        PMode::KeyFirst => if is_ws(c) {
            st
        } else if c == '}' {
            if st.stack.len() > 0 {
                match st.stack.last() {
                    PFrame::Obj(es) => p_complete(st.stack.drop_last(), JsonModel::Obj(es)),
                    _ => p_fail(),
                }
            } else {
                p_fail()
            }
        } else if c == '"' {
            PState { stack: st.stack, mode: PMode::InStr(Seq::empty(), false, true) }
        } else {
            p_fail()
        },
        PMode::Key => if is_ws(c) {
            st
        } else if c == '"' {
            PState { stack: st.stack, mode: PMode::InStr(Seq::empty(), false, true) }
        } else {
            p_fail()
        },
        PMode::Colon => if is_ws(c) {
            st
        } else if c == ':' {
            PState { stack: st.stack, mode: PMode::Val }
        } else {
            p_fail()
        },
        PMode::AfterVal => p_after(st.stack, c),
        PMode::InStr(buf, esc, key) => if esc {
            match escape_char(c) {
                Some(d) => PState { stack: st.stack, mode: PMode::InStr(buf.push(d), false, key) },
                None => p_fail(),
            }
        } else if c == '"' {
            if key {
                if st.stack.len() > 0 && (st.stack.last() matches PFrame::Obj(_)) {
                    let es = st.stack.last()->Obj_0;
                    PState {
                        stack: st.stack.update(st.stack.len() - 1, PFrame::ObjPend(es, buf)),
                        mode: PMode::Colon,
                    }
                } else {
                    p_fail()
                }
            } else {
                p_complete(st.stack, JsonModel::Str(buf))
            }
        } else if c == '\\' {
            PState { stack: st.stack, mode: PMode::InStr(buf, true, key) }
        } else if (c as int) < 32 {
            p_fail()
        } else {
            PState { stack: st.stack, mode: PMode::InStr(buf.push(c), false, key) }
        },
        PMode::InTok(buf) => if is_tok_char(c) {
            PState { stack: st.stack, mode: PMode::InTok(buf.push(c)) }
        } else if is_ws(c) || c == ',' || c == ']' || c == '}' {
            match finish_token(buf) {
                Some(v) => {
                    let st2 = p_complete(st.stack, v);
                    if is_ws(c) {
                        st2
                    } else {
                        match st2.mode {
                            PMode::AfterVal => p_after(st2.stack, c),
                            _ => p_fail(),
                        }
                    }
                },
                None => p_fail(),
            }
        } else {
            p_fail()
        },
    }
}

/// Folds the parser over the input from position `i`.
pub open spec fn p_run(st: PState, s: Seq<char>, i: int) -> PState
    decreases s.len() - i,
{
    if 0 <= i < s.len() {
        p_run(p_step(st, s[i]), s, i + 1)
    } else {
        st
    }
}

/// The result at end of input.
pub open spec fn p_finish(st: PState) -> Option<JsonModel> {
    match st.mode {
        PMode::Done(v) => Some(v),
        PMode::InTok(buf) => if st.stack.len() == 0 {
            finish_token(buf)
        } else {
            None
        },
        _ => None,
    }
}

/// The value of a text under the structured-value grammar, if any.
pub open spec fn spec_parse_json(s: Seq<char>) -> Option<JsonModel> {
    p_finish(p_run(p_init(), s, 0))
}

/// An open container on the executable parser's stack.
enum EFrame {
    Arr(Vec<JsonValue>),
    Obj(Vec<(String, JsonValue)>),
    ObjPend(Vec<(String, JsonValue)>, String),
}

/// What the executable parser expects next.
enum EMode {
    Val,
    ArrFirst,
    KeyFirst,
    Key,
    Colon,
    AfterVal,
    InStr(Vec<char>, bool, bool),
    InTok(Vec<char>),
    Done(JsonValue),
    Fail,
}

/// The executable parser state.
struct EState {
    pub stack: Vec<EFrame>,
    pub mode: EMode,
}

/// The model of one stack frame.
spec fn frame_model(f: EFrame) -> PFrame {
    match f {
        EFrame::Arr(es) => PFrame::Arr(json_seq_model(es@)),
        EFrame::Obj(es) => PFrame::Obj(json_entries_model(es@)),
        EFrame::ObjPend(es, k) => PFrame::ObjPend(json_entries_model(es@), k@),
    }
}

/// The model of the whole stack.
spec fn frames_model(s: Seq<EFrame>) -> Seq<PFrame> {
    s.map_values(|f: EFrame| frame_model(f))
}

/// The model of the mode.
spec fn mode_model(m: EMode) -> PMode {
    match m {
        EMode::Val => PMode::Val,
        EMode::ArrFirst => PMode::ArrFirst,
        EMode::KeyFirst => PMode::KeyFirst,
        EMode::Key => PMode::Key,
        EMode::Colon => PMode::Colon,
        EMode::AfterVal => PMode::AfterVal,
        EMode::InStr(buf, esc, key) => PMode::InStr(buf@, esc, key),
        EMode::InTok(buf) => PMode::InTok(buf@),
        EMode::Done(v) => PMode::Done(json_model(v)),
        EMode::Fail => PMode::Fail,
    }
}

/// The model of the whole state.
spec fn estate_model(st: EState) -> PState {
    PState { stack: frames_model(st.stack@), mode: mode_model(st.mode) }
}

/// Pushing an element commutes with taking models.
pub proof fn lemma_json_seq_model_push(s: Seq<JsonValue>, v: JsonValue)
    ensures
        json_seq_model(s.push(v)) == json_seq_model(s).push(json_model(v)),
{
    lemma_json_seq_model_len(s.push(v));
    lemma_json_seq_model_len(s);
    assert(json_seq_model(s.push(v)) =~= json_seq_model(s).push(json_model(v)));
}

/// Upserting at the first occurrence of the key is an in-place update.
proof fn lemma_upsert_found(es: Seq<(Seq<char>, JsonModel)>, k: Seq<char>, v: JsonModel, i: int)
    requires
        0 <= i < es.len(),
        es[i].0 == k,
        forall|j: int| 0 <= j < i ==> es[j].0 != k,
    ensures
        upsert(es, k, v) == es.update(i, (k, v)),
    decreases es.len(),
{
    if i == 0 {
        assert(upsert(es, k, v) =~= es.update(0, (k, v)));
    } else {
        assert(es[0].0 != k);
        lemma_upsert_found(es.drop_first(), k, v, i - 1);
        assert(upsert(es, k, v) =~= es.update(i, (k, v)));
    }
}

/// Upserting an absent key appends the member.
proof fn lemma_upsert_absent(es: Seq<(Seq<char>, JsonModel)>, k: Seq<char>, v: JsonModel)
    requires
        forall|j: int| 0 <= j < es.len() ==> es[j].0 != k,
    ensures
        upsert(es, k, v) == es.push((k, v)),
    decreases es.len(),
{
    if es.len() == 0 {
        assert(upsert(es, k, v) =~= es.push((k, v)));
    } else {
        lemma_upsert_absent(es.drop_first(), k, v);
        assert(upsert(es, k, v) =~= es.push((k, v)));
    }
}

/// Adds a member to an object's entries, replacing a repeated key in place.
fn entries_upsert(es: Vec<(String, JsonValue)>, k: String, v: JsonValue) -> (r: Vec<
    (String, JsonValue),
>)
    ensures
        json_entries_model(r@) == upsert(json_entries_model(es@), k@, json_model(v)),
{
    proof {
        lemma_json_entries_model_len(es@);
    }
    let ghost ms = json_entries_model(es@);
    let ghost kv = k@;
    let ghost vm = json_model(v);
    let mut es = es;
    let mut i: usize = 0;
    while i < es.len() && !(es[i].0 == k)
        invariant
            i <= es@.len(),
            ms == json_entries_model(es@),
            ms.len() == es@.len(),
            forall|j: int| 0 <= j < es@.len() ==> ms[j] == (es@[j].0@, json_model(es@[j].1)),
            forall|j: int| 0 <= j < i ==> ms[j].0 != k@,
            kv == k@,
        decreases es@.len() - i,
    {
        i = i + 1;
    }
    if i < es.len() {
        assert(ms[i as int].0 == kv);
        proof {
            lemma_upsert_found(ms, kv, vm, i as int);
        }
        es[i] = (k, v);
        proof {
            lemma_json_entries_model_len(es@);
            assert(json_entries_model(es@) =~= ms.update(i as int, (kv, vm)));
        }
        es
    } else {
        proof {
            lemma_upsert_absent(ms, kv, vm);
        }
        es.push((k, v));
        proof {
            lemma_json_entries_model_len(es@);
            assert(json_entries_model(es@) =~= ms.push((kv, vm)));
        }
        es
    }
}

/// The failed executable state.
fn e_fail() -> (r: EState)
    ensures
        estate_model(r) == p_fail(),
{
    let r = EState { stack: Vec::new(), mode: EMode::Fail };
    assert(frames_model(r.stack@) =~= Seq::<PFrame>::empty());
    r
}

/// Hands a completed value to the innermost open container.
fn e_complete(stack: Vec<EFrame>, v: JsonValue) -> (r: EState)
    ensures
        estate_model(r) == p_complete(frames_model(stack@), json_model(v)),
{
    let ghost ss = frames_model(stack@);
    let mut stack = stack;
    if stack.len() == 0 {
        assert(ss.len() == 0);
        let r = EState { stack, mode: EMode::Done(v) };
        return r;
    }
    assert(ss.len() == stack@.len());
    assert(ss.last() == frame_model(stack@.last()));
    let top = stack.pop().unwrap();
    match top {
        EFrame::Arr(mut es) => {
            proof {
                lemma_json_seq_model_push(es@, v);
            }
            es.push(v);
            stack.push(EFrame::Arr(es));
            let r = EState { stack, mode: EMode::AfterVal };
            assert(frames_model(r.stack@) =~= ss.update(ss.len() - 1, PFrame::Arr(
                ss.last()->Arr_0.push(json_model(v)),
            )));
            r
        },
        EFrame::ObjPend(es, k) => {
            let es2 = entries_upsert(es, k, v);
            stack.push(EFrame::Obj(es2));
            let r = EState { stack, mode: EMode::AfterVal };
            assert(frames_model(r.stack@) =~= ss.update(ss.len() - 1, PFrame::Obj(
                upsert(ss.last()->ObjPend_0, ss.last()->ObjPend_1, json_model(v)),
            )));
            r
        },
        EFrame::Obj(_) => e_fail(),
    }
}

/// Whether a character is JSON whitespace.
fn ws_char(c: char) -> (r: bool)
    ensures
        r == is_ws(c),
{
    c == ' ' || c == '\t' || c == '\n' || c == '\r'
}

/// Whether a character may continue a bare token.
fn tok_char(c: char) -> (r: bool)
    ensures
        r == is_tok_char(c),
{
    (c >= '0' && c <= '9') || (c >= 'a' && c <= 'z') || (c >= 'A' && c <= 'Z') || c == '+' || c
        == '-' || c == '.'
}

/// Classifies a finished bare token.
fn e_finish_token(buf: Vec<char>) -> (r: Option<JsonValue>)
    ensures
        match r {
            Some(v) => finish_token(buf@) == Some(json_model(v)),
            None => finish_token(buf@) is None,
        },
{
    if buf.len() == 4 && buf[0] == 'n' && buf[1] == 'u' && buf[2] == 'l' && buf[3] == 'l' {
        assert(buf@ =~= null_chars());
        Some(JsonValue::Null)
    } else if buf.len() == 4 && buf[0] == 't' && buf[1] == 'r' && buf[2] == 'u' && buf[3] == 'e' {
        assert(buf@ =~= true_chars());
        Some(JsonValue::Bool(true))
    } else if buf.len() == 5 && buf[0] == 'f' && buf[1] == 'a' && buf[2] == 'l' && buf[3] == 's'
        && buf[4] == 'e' {
        assert(buf@ =~= false_chars());
        Some(JsonValue::Bool(false))
    } else {
        assert(buf@ != null_chars() && buf@ != true_chars() && buf@ != false_chars()) by {
            if buf@ == null_chars() {
                assert(buf@.len() == 4 && buf@[0] == 'n' && buf@[1] == 'u' && buf@[2] == 'l'
                    && buf@[3] == 'l');
            }
            if buf@ == true_chars() {
                assert(buf@.len() == 4 && buf@[0] == 't' && buf@[1] == 'r' && buf@[2] == 'u'
                    && buf@[3] == 'e');
            }
            if buf@ == false_chars() {
                assert(buf@.len() == 5 && buf@[0] == 'f' && buf@[1] == 'a' && buf@[2] == 'l'
                    && buf@[3] == 's' && buf@[4] == 'e');
            }
        }
        if crate::number::is_json_number_chars(&buf) {
            let t = crate::util::chars_to_string(&buf);
            Some(JsonValue::Num(t))
        } else {
            None
        }
    }
}

/// Starts a value at `c`.
fn e_value_start(stack: Vec<EFrame>, c: char) -> (r: EState)
    ensures
        estate_model(r) == p_value_start(frames_model(stack@), c),
{
    let ghost ss = frames_model(stack@);
    let mut stack = stack;
    if c == '[' {
        stack.push(EFrame::Arr(Vec::new()));
        let r = EState { stack, mode: EMode::ArrFirst };
        assert(json_seq_model(Seq::<JsonValue>::empty()) =~= Seq::<JsonModel>::empty());
        assert(frames_model(r.stack@) =~= ss.push(PFrame::Arr(Seq::empty())));
        r
    } else if c == '{' {
        stack.push(EFrame::Obj(Vec::new()));
        let r = EState { stack, mode: EMode::KeyFirst };
        assert(json_entries_model(Seq::<(String, JsonValue)>::empty()) =~= Seq::<
            (Seq<char>, JsonModel),
        >::empty());
        assert(frames_model(r.stack@) =~= ss.push(PFrame::Obj(Seq::empty())));
        r
    } else if c == '"' {
        let buf: Vec<char> = Vec::new();
        assert(buf@ =~= Seq::<char>::empty());
        let r = EState { stack, mode: EMode::InStr(buf, false, false) };
        r
    } else if tok_char(c) {
        let mut buf: Vec<char> = Vec::new();
        buf.push(c);
        assert(buf@ =~= seq![c]);
        EState { stack, mode: EMode::InTok(buf) }
    } else {
        e_fail()
    }
}

/// Handles `c` right after a completed value.
fn e_after(stack: Vec<EFrame>, c: char) -> (r: EState)
    ensures
        estate_model(r) == p_after(frames_model(stack@), c),
{
    let ghost ss = frames_model(stack@);
    let mut stack = stack;
    if ws_char(c) {
        return EState { stack, mode: EMode::AfterVal };
    }
    if stack.len() == 0 {
        assert(ss.len() == 0);
        return e_fail();
    }
    assert(ss.last() == frame_model(stack@.last()));
    if c == ',' {
        let is_arr = match &stack[stack.len() - 1] {
            EFrame::Arr(_) => true,
            _ => false,
        };
        let is_obj = match &stack[stack.len() - 1] {
            EFrame::Obj(_) => true,
            _ => false,
        };
        assert(stack@.last() == stack@[stack@.len() - 1]);
        if is_arr {
            EState { stack, mode: EMode::Val }
        } else if is_obj {
            EState { stack, mode: EMode::Key }
        } else {
            e_fail()
        }
    } else if c == ']' {
        let top = stack.pop().unwrap();
        assert(frames_model(stack@) =~= ss.drop_last());
        match top {
            EFrame::Arr(es) => e_complete(stack, JsonValue::Arr(es)),
            _ => e_fail(),
        }
    } else if c == '}' {
        let top = stack.pop().unwrap();
        assert(frames_model(stack@) =~= ss.drop_last());
        match top {
            EFrame::Obj(es) => e_complete(stack, JsonValue::Obj(es)),
            _ => e_fail(),
        }
    } else {
        e_fail()
    }
}

/// One step of the executable parser on one character.
fn e_step(st: EState, c: char) -> (r: EState)
    ensures
        estate_model(r) == p_step(estate_model(st), c),
{
    let EState { stack, mode } = st;
    match mode {
        EMode::Fail => e_fail(),
        EMode::Done(v) => if ws_char(c) {
            EState { stack, mode: EMode::Done(v) }
        } else {
            e_fail()
        },
        EMode::Val => if ws_char(c) {
            EState { stack, mode: EMode::Val }
        } else {
            e_value_start(stack, c)
        },
        EMode::ArrFirst => if ws_char(c) {
            EState { stack, mode: EMode::ArrFirst }
        } else if c == ']' {
            let ghost ss = frames_model(stack@);
            let mut stack = stack;
            if stack.len() == 0 {
                assert(ss.len() == 0);
                e_fail()
            } else {
                assert(ss.last() == frame_model(stack@.last()));
                let top = stack.pop().unwrap();
                assert(frames_model(stack@) =~= ss.drop_last());
                match top {
                    EFrame::Arr(es) => e_complete(stack, JsonValue::Arr(es)),
                    _ => e_fail(),
                }
            }
        } else {
            e_value_start(stack, c)
        },
        EMode::KeyFirst => if ws_char(c) {
            EState { stack, mode: EMode::KeyFirst }
        } else if c == '}' {
            let ghost ss = frames_model(stack@);
            let mut stack = stack;
            if stack.len() == 0 {
                assert(ss.len() == 0);
                e_fail()
            } else {
                assert(ss.last() == frame_model(stack@.last()));
                let top = stack.pop().unwrap();
                assert(frames_model(stack@) =~= ss.drop_last());
                match top {
                    EFrame::Obj(es) => e_complete(stack, JsonValue::Obj(es)),
                    _ => e_fail(),
                }
            }
        } else if c == '"' {
            let buf: Vec<char> = Vec::new();
            assert(buf@ =~= Seq::<char>::empty());
            let r = EState { stack, mode: EMode::InStr(buf, false, true) };
            r
        } else {
            e_fail()
        },
        EMode::Key => if ws_char(c) {
            EState { stack, mode: EMode::Key }
        } else if c == '"' {
            let buf: Vec<char> = Vec::new();
            assert(buf@ =~= Seq::<char>::empty());
            let r = EState { stack, mode: EMode::InStr(buf, false, true) };
            r
        } else {
            e_fail()
        },
        EMode::Colon => if ws_char(c) {
            EState { stack, mode: EMode::Colon }
        } else if c == ':' {
            EState { stack, mode: EMode::Val }
        } else {
            e_fail()
        },
        EMode::AfterVal => e_after(stack, c),
        EMode::InStr(mut buf, esc, key) => {
            if esc {
                let d: Option<char> = match c {
                    '"' => Some('"'),
                    '\\' => Some('\\'),
                    '/' => Some('/'),
                    'b' => Some('\u{8}'),
                    'f' => Some('\u{c}'),
                    'n' => Some('\n'),
                    'r' => Some('\r'),
                    't' => Some('\t'),
                    _ => None,
                };
                assert(d == escape_char(c));
                match d {
                    Some(d) => {
                        buf.push(d);
                        EState { stack, mode: EMode::InStr(buf, false, key) }
                    },
                    None => e_fail(),
                }
            } else if c == '"' {
                if key {
                    let ghost ss = frames_model(stack@);
                    let mut stack = stack;
                    if stack.len() == 0 {
                        assert(ss.len() == 0);
                        e_fail()
                    } else {
                        assert(ss.last() == frame_model(stack@.last()));
                        let top = stack.pop().unwrap();
                        match top {
                            EFrame::Obj(es) => {
                                let k = crate::util::chars_to_string(&buf);
                                stack.push(EFrame::ObjPend(es, k));
                                let r = EState { stack, mode: EMode::Colon };
                                assert(frames_model(r.stack@) =~= ss.update(
                                    ss.len() - 1,
                                    PFrame::ObjPend(ss.last()->Obj_0, buf@),
                                ));
                                r
                            },
                            _ => e_fail(),
                        }
                    }
                } else {
                    e_complete(stack, JsonValue::Str(crate::util::chars_to_string(&buf)))
                }
            } else if c == '\\' {
                EState { stack, mode: EMode::InStr(buf, true, key) }
            } else if (c as u32) < 32 {
                e_fail()
            } else {
                buf.push(c);
                EState { stack, mode: EMode::InStr(buf, false, key) }
            }
        },
        EMode::InTok(mut buf) => {
            if tok_char(c) {
                buf.push(c);
                EState { stack, mode: EMode::InTok(buf) }
            } else if ws_char(c) || c == ',' || c == ']' || c == '}' {
                match e_finish_token(buf) {
                    Some(v) => {
                        let st2 = e_complete(stack, v);
                        if ws_char(c) {
                            st2
                        } else {
                            let EState { stack: stack2, mode: mode2 } = st2;
                            match mode2 {
                                EMode::AfterVal => e_after(stack2, c),
                                _ => e_fail(),
                            }
                        }
                    },
                    None => e_fail(),
                }
            } else {
                e_fail()
            }
        },
    }
}

/// Parses a text as a structured value; `None` when the text is not in the
/// grammar.
pub fn parse_json_chars(s: &Vec<char>) -> (r: Option<JsonValue>)
    ensures
        match r {
            Some(v) => spec_parse_json(s@) == Some(json_model(v)),
            None => spec_parse_json(s@) is None,
        },
{
    let mut st = EState { stack: Vec::new(), mode: EMode::Val };
    assert(frames_model(st.stack@) =~= Seq::<PFrame>::empty());
    assert(estate_model(st) == p_init());
    let mut i: usize = 0;
    while i < s.len()
        invariant
            i <= s@.len(),
            p_run(p_init(), s@, 0) == p_run(estate_model(st), s@, i as int),
        decreases s@.len() - i,
    {
        let c = s[i];
        let ghost m = estate_model(st);
        st = e_step(st, c);
        assert(p_run(m, s@, i as int) == p_run(p_step(m, c), s@, i as int + 1));
        i = i + 1;
    }
    assert(p_run(p_init(), s@, 0) == estate_model(st));
    let EState { stack, mode } = st;
    match mode {
        EMode::Done(v) => Some(v),
        EMode::InTok(buf) => {
            if stack.len() == 0 {
                assert(frames_model(stack@).len() == 0);
                e_finish_token(buf)
            } else {
                assert(frames_model(stack@).len() == stack@.len());
                None
            }
        },
        _ => None,
    }
}


} // verus!
