//! Naming templates: `key = value` lines whose values are TinyTemplate templates rendering the
//! names of the generated items from the FSM's name.
use vstd::prelude::*;

use heck::{ToSnakeCase, ToUpperCamelCase};

use crate::error::concat;
use crate::template_scan::{trips_compiler, trips_compiler_check};
use crate::text::{chars_of, find_char, index_of, lines, same_chars, slice_of, split_lines, string_of, trim, trimmed};

verus! {

#[verifier::external_type_specification]
#[verifier::external_body]
pub struct ExTinyTemplate<'t>(tinytemplate::TinyTemplate<'t>);

/// The templates a TinyTemplate registry holds: each name with the text it was compiled from.
pub uninterp spec fn registered_templates(tt: tinytemplate::TinyTemplate<'_>) -> Map<Seq<char>, Seq<char>>;

/// The registry has only the formatters `TinyTemplate::new` installs.
pub uninterp spec fn default_formatters(tt: tinytemplate::TinyTemplate<'_>) -> bool;

/// Whether TinyTemplate compiles `text` into a template.
pub uninterp spec fn template_compiles(text: Seq<char>) -> bool;

/// What the template compiled from `text`, alone in a registry with the default formatters,
/// renders with the context `{ "name": value }`; `None` when rendering fails.
pub uninterp spec fn template_output(text: Seq<char>, value: Seq<char>) -> Option<Seq<char>>;

/// heck's upper camel case of `s`.
pub uninterp spec fn upper_camel_case(s: Seq<char>) -> Seq<char>;

/// heck's snake case of `s`.
pub uninterp spec fn snake_case(s: Seq<char>) -> Seq<char>;

/// A TinyTemplate registry, before any template borrows text from elsewhere.
pub type TemplateRegistry = tinytemplate::TinyTemplate<'static>;

/// `TinyTemplate::new`: a registry with no templates and the default formatters.
#[verifier::external_body]
fn template_registry() -> (r: TemplateRegistry)
    ensures
        registered_templates(r).dom() == Set::<Seq<char>>::empty(),
        default_formatters(r),
{
    tinytemplate::TinyTemplate::new()
}

/// `TinyTemplate::add_template`: compiles `text` and, if that succeeds, registers it as `name`
/// (replacing a template of that name); on failure the registry is unchanged. An error is
/// handed back as its message, which is left unstated. Texts the compiler would panic on (see
/// [`trips_compiler`]) are not admitted.
#[verifier::external_body]
fn add_template<'t>(tt: &mut tinytemplate::TinyTemplate<'t>, name: &'t str, text: &'t str) -> (r: Result<(), String>)
    requires
        !trips_compiler(text@),
    ensures
        (r is Ok) == template_compiles(text@),
        r is Ok ==> registered_templates(*final(tt)) == registered_templates(*old(tt)).insert(name@, text@),
        r is Err ==> registered_templates(*final(tt)) == registered_templates(*old(tt)),
        default_formatters(*final(tt)) == default_formatters(*old(tt)),
{
    tt.add_template(name, text).map_err(|e| e.to_string())
}

/// `TinyTemplate::render` with the context `{ "name": value }`: fails for an unknown template
/// name; for the only template of a registry with the default formatters, gives what
/// [`template_output`] names. An error is handed back as its message, which is left unstated.
#[verifier::external_body]
fn render_template(tt: &tinytemplate::TinyTemplate<'_>, name: &str, value: &str) -> (r: Result<String, String>)
    ensures
        !registered_templates(*tt).contains_key(name@) ==> r is Err,
        registered_templates(*tt).dom() == set![name@] && default_formatters(*tt) ==> match r {
            Ok(s) => template_output(registered_templates(*tt)[name@], value@) == Some(s@),
            Err(_) => template_output(registered_templates(*tt)[name@], value@) is None,
        },
{
    let mut context = std::collections::BTreeMap::new();
    context.insert("name", value);
    tt.render(name, &context).map_err(|e| e.to_string())
}

/// `ToUpperCamelCase::to_upper_camel_case`.
#[verifier::external_body]
fn to_upper_camel(s: &str) -> (r: String)
    ensures
        r@ == upper_camel_case(s@),
{
    s.to_upper_camel_case()
}

/// `ToSnakeCase::to_snake_case`.
#[verifier::external_body]
fn to_snake(s: &str) -> (r: String)
    ensures
        r@ == snake_case(s@),
{
    s.to_snake_case()
}

/// Why a naming template could not be rendered.
#[derive(Debug, PartialEq, Eq)]
pub enum NamingError {
    /// A non-blank line without `=`.
    MalformedLine(String),
    /// A required key has no line.
    MissingKey(String),
    /// A line sets a key that is not one of the required keys.
    UnknownKey(String),
    /// A value is not a template TinyTemplate can render.
    RenderError(String),
}

/// The mathematical view of a [`NamingError`].
pub enum NamingErrorView {
    MalformedLine(Seq<char>),
    MissingKey(Seq<char>),
    UnknownKey(Seq<char>),
    RenderError(Seq<char>),
}

impl View for NamingError {
    type V = NamingErrorView;

    open spec fn view(&self) -> NamingErrorView {
        match *self {
            NamingError::MalformedLine(s) => NamingErrorView::MalformedLine(s@),
            NamingError::MissingKey(s) => NamingErrorView::MissingKey(s@),
            NamingError::UnknownKey(s) => NamingErrorView::UnknownKey(s@),
            NamingError::RenderError(s) => NamingErrorView::RenderError(s@),
        }
    }
}

/// The message of a naming error.
pub open spec fn naming_error_message(e: NamingErrorView) -> Seq<char> {
    match e {
        NamingErrorView::MalformedLine(s) => "Malformed line (expected 'key = value'): "@ + s,
        NamingErrorView::MissingKey(s) => "Missing required key: "@ + s,
        NamingErrorView::UnknownKey(s) => "Unknown key: "@ + s,
        NamingErrorView::RenderError(s) => "Template rendering failed: "@ + s,
    }
}

impl NamingError {
    /// The error's message.
    pub fn to_string(&self) -> (r: String)
        ensures
            r@ == naming_error_message(self@),
    {
        match self {
            NamingError::MalformedLine(s) => concat("Malformed line (expected 'key = value'): ", s.as_str()),
            NamingError::MissingKey(s) => concat("Missing required key: ", s.as_str()),
            NamingError::UnknownKey(s) => concat("Unknown key: ", s.as_str()),
            NamingError::RenderError(s) => concat("Template rendering failed: ", s.as_str()),
        }
    }
}

/// The names of the generated items.
#[derive(Clone, Debug)]
pub struct RenderedNames {
    pub fsm: String,
    pub fsm_inner: String,
    pub module: String,
    pub event_params_trait: String,
    pub event_enum: String,
    pub action_trait: String,
    pub state_struct: String,
    pub state_id_enum: String,
    pub init_state_id_variant: String,
}

/// The names in the order of [`required_keys`].
pub open spec fn names_seq(r: RenderedNames) -> Seq<Seq<char>> {
    seq![
        r.fsm@,
        r.fsm_inner@,
        r.module@,
        r.event_params_trait@,
        r.event_enum@,
        r.action_trait@,
        r.state_struct@,
        r.state_id_enum@,
        r.init_state_id_variant@,
    ]
}

/// The keys a naming template must set, each exactly once in effect, and no others.
pub open spec fn required_keys() -> Seq<Seq<char>> {
    seq![
        "fsm"@,
        "fsm_inner"@,
        "module"@,
        "event_params_trait"@,
        "event_enum"@,
        "action_trait"@,
        "state_struct"@,
        "state_id_enum"@,
        "init_state_id_variant"@,
    ]
}

/// The `i`-th required key.
fn required_key(i: usize) -> (r: &'static str)
    requires
        i < required_keys().len(),
    ensures
        r@ == required_keys()[i as int],
{
    match i {
        0 => "fsm",
        1 => "fsm_inner",
        2 => "module",
        3 => "event_params_trait",
        4 => "event_enum",
        5 => "action_trait",
        6 => "state_struct",
        7 => "state_id_enum",
        _ => "init_state_id_variant",
    }
}

/// A template line: `None` when blank, else the trimmed key and value around the first `=`,
/// or the trimmed line itself when it has no `=`.
pub open spec fn parse_line(l: Seq<char>) -> Option<Result<(Seq<char>, Seq<char>), Seq<char>>> {
    let t = trim(l);
    if t.len() == 0 {
        None
    } else {
        match index_of(t, '=') {
            None => Some(Err(t)),
            Some(i) => Some(Ok((trim(t.subrange(0, i)), trim(t.subrange(i + 1, t.len() as int))))),
        }
    }
}

/// The entries of the first `n` lines in order, or the first malformed line.
pub open spec fn parse_entries(ls: Seq<Seq<char>>, n: int) -> Result<Seq<(Seq<char>, Seq<char>)>, NamingErrorView>
    decreases n,
{
    if n <= 0 {
        Ok(Seq::empty())
    } else {
        match parse_entries(ls, n - 1) {
            Err(e) => Err(e),
            Ok(es) => match parse_line(ls[n - 1]) {
                None => Ok(es),
                Some(Err(t)) => Err(NamingErrorView::MalformedLine(t)),
                Some(Ok(kv)) => Ok(es.push(kv)),
            },
        }
    }
}

/// The first entry from `i` on whose key is not required.
pub open spec fn first_unknown(es: Seq<(Seq<char>, Seq<char>)>, i: int) -> Option<int>
    decreases es.len() - i,
{
    if 0 <= i < es.len() {
        if !required_keys().contains(es[i].0) {
            Some(i)
        } else {
            first_unknown(es, i + 1)
        }
    } else {
        None
    }
}

/// Whether some entry sets `key`.
pub open spec fn has_key(es: Seq<(Seq<char>, Seq<char>)>, key: Seq<char>) -> bool {
    exists|k: int| 0 <= k < es.len() && (#[trigger] es[k]).0 == key
}

/// The first required key from position `j` on that no entry sets.
pub open spec fn first_missing(es: Seq<(Seq<char>, Seq<char>)>, j: int) -> Option<int>
    decreases required_keys().len() - j,
{
    if 0 <= j < required_keys().len() {
        if !has_key(es, required_keys()[j]) {
            Some(j)
        } else {
            first_missing(es, j + 1)
        }
    } else {
        None
    }
}

/// The value of the last entry that sets `key` (a later line overrides an earlier one).
pub open spec fn value_of(es: Seq<(Seq<char>, Seq<char>)>, key: Seq<char>) -> Seq<char>
    decreases es.len(),
{
    if es.len() == 0 {
        Seq::empty()
    } else if es.last().0 == key {
        es.last().1
    } else {
        value_of(es.drop_last(), key)
    }
}

/// The message for a value the compiler is not given.
pub open spec fn refusal_message(t: Seq<char>) -> Seq<char> {
    "Unsupported template text: "@ + t
}

/// What rendering the template `text` with the name `value` gives, if it renders.
pub open spec fn rendered_value(text: Seq<char>, value: Seq<char>) -> Option<Seq<char>> {
    if trips_compiler(text) {
        None
    } else if template_compiles(text) {
        template_output(text, value)
    } else {
        None
    }
}

/// The values of the first `n` required keys, rendered with the name `value`, if all render.
pub open spec fn render_keys(es: Seq<(Seq<char>, Seq<char>)>, value: Seq<char>, n: int) -> Option<Seq<Seq<char>>>
    decreases n,
{
    if n <= 0 {
        Some(Seq::empty())
    } else {
        match render_keys(es, value, n - 1) {
            None => None,
            Some(done) => match rendered_value(value_of(es, required_keys()[n - 1]), value) {
                None => None,
                Some(v) => Some(done.push(v)),
            },
        }
    }
}

/// The first of the first `n` required keys' values that is refused before it reaches the
/// compiler, all earlier ones having rendered.
pub open spec fn first_trip(es: Seq<(Seq<char>, Seq<char>)>, value: Seq<char>, n: int) -> Option<Seq<char>>
    decreases n,
{
    if n <= 0 {
        None
    } else {
        match first_trip(es, value, n - 1) {
            Some(t) => Some(t),
            None => if render_keys(es, value, n - 1) is Some && trips_compiler(value_of(es, required_keys()[n - 1])) {
                Some(value_of(es, required_keys()[n - 1]))
            } else {
                None
            },
        }
    }
}

/// What rendering a naming template can come to.
pub enum RenderOutcome {
    /// The rendered names, in the order of [`required_keys`].
    Names(Seq<Seq<char>>),
    /// The template is malformed or sets the wrong keys.
    Failed(NamingErrorView),
    /// A value failed to render; the error carries TinyTemplate's message.
    RenderFailed,
}

/// Rendering the template `content` for the FSM `name`: the lines are read as `key = value`
/// entries (blank lines skipped); every key must be a required one and every required key set;
/// each value is then rendered with the name in upper camel case, and the module name is
/// snake-cased. A value the template compiler would panic on (see [`trips_compiler`]) is
/// refused with an error when its turn comes.
pub open spec fn spec_render(content: Seq<char>, name: Seq<char>) -> RenderOutcome {
    let ls = lines(content);
    match parse_entries(ls, ls.len() as int) {
        Err(e) => RenderOutcome::Failed(e),
        Ok(es) => match first_unknown(es, 0) {
            Some(k) => RenderOutcome::Failed(NamingErrorView::UnknownKey(es[k].0)),
            None => match first_missing(es, 0) {
                Some(j) => RenderOutcome::Failed(NamingErrorView::MissingKey(required_keys()[j])),
                None => match render_keys(es, upper_camel_case(name), required_keys().len() as int) {
                    None => match first_trip(es, upper_camel_case(name), required_keys().len() as int) {
                        Some(t) => RenderOutcome::Failed(NamingErrorView::RenderError(refusal_message(t))),
                        None => RenderOutcome::RenderFailed,
                    },
                    Some(vs) => RenderOutcome::Names(vs.update(2, snake_case(vs[2]))),
                },
            },
        },
    }
}

/// The built-in naming template.
pub open spec fn default_template() -> Seq<char> {
    "fsm = {name}\nfsm_inner = {name}Inner\nmodule = {name}\nevent_params_trait = I{name}EventParams\nevent_enum = {name}Event\naction_trait = I{name}Actions\nstate_struct = {name}StateNode\nstate_id_enum = {name}State\ninit_state_id_variant = _{name}InitialState_\n"@
}

/// A naming template: one `key = value` line per generated item.
#[derive(Debug, Clone)]
pub struct NamingTemplate<'a> {
    pub content: &'a str,
}

impl<'a> Default for NamingTemplate<'a> {
    fn default() -> (r: Self)
        ensures
            r.content@ == default_template(),
    {
        NamingTemplate {
            content: "fsm = {name}\nfsm_inner = {name}Inner\nmodule = {name}\nevent_params_trait = I{name}EventParams\nevent_enum = {name}Event\naction_trait = I{name}Actions\nstate_struct = {name}StateNode\nstate_id_enum = {name}State\ninit_state_id_variant = _{name}InitialState_\n",
        }
    }
}

/// The views of parsed entries.
pub open spec fn entries_view(es: Seq<(Vec<char>, Vec<char>)>) -> Seq<(Seq<char>, Seq<char>)> {
    es.map_values(|e: (Vec<char>, Vec<char>)| (e.0@, e.1@))
}

impl<'a> NamingTemplate<'a> {
    /// A template with the given text.
    pub fn new(content: &'a str) -> (r: Self)
        ensures
            r.content == content,
    {
        NamingTemplate { content }
    }

    /// Reads the `key = value` entries, in order (see [`parse_entries`]).
    fn parse_entries(&self) -> (r: Result<Vec<(Vec<char>, Vec<char>)>, NamingError>)
        ensures
            match r {
                Ok(es) => parse_entries(lines(self.content@), lines(self.content@).len() as int) == Ok::<Seq<(Seq<char>, Seq<char>)>, NamingErrorView>(entries_view(es@)),
                Err(e) => parse_entries(lines(self.content@), lines(self.content@).len() as int) == Err::<Seq<(Seq<char>, Seq<char>)>, NamingErrorView>(e@),
            },
    {
        let cs = chars_of(self.content);
        let ls = split_lines(&cs);
        let ghost lv = ls@.map_values(|l: Vec<char>| l@);
        let mut es: Vec<(Vec<char>, Vec<char>)> = Vec::new();
        proof { assert(entries_view(es@) =~= Seq::<(Seq<char>, Seq<char>)>::empty()); }
        let mut i: usize = 0;
        while i < ls.len()
            invariant
                lv == ls@.map_values(|l: Vec<char>| l@),
                lv == lines(self.content@),
                i <= ls@.len(),
                parse_entries(lv, i as int) == Ok::<Seq<(Seq<char>, Seq<char>)>, NamingErrorView>(entries_view(es@)),
            decreases ls@.len() - i,
        {
            let t = trimmed(&ls[i]);
            proof { assert(lv[i as int] == ls@[i as int]@); }
            if t.len() != 0 {
                match find_char(&t, '=') {
                    None => {
                        let e = NamingError::MalformedLine(string_of(t.as_slice()));
                        proof {
                            assert(parse_entries(lv, i + 1) == Err::<Seq<(Seq<char>, Seq<char>)>, NamingErrorView>(e@));
                            lemma_parse_entries_err(lv, i + 1, lv.len() as int);
                        }
                        return Err(e);
                    },
                    Some(k) => {
                        let key = trimmed(&slice_of(&t, 0, k));
                        let value = trimmed(&slice_of(&t, k + 1, t.len()));
                        let ghost before = es@;
                        es.push((key, value));
                        proof { assert(entries_view(es@) =~= entries_view(before).push((key@, value@))); }
                    },
                }
            }
            i = i + 1;
        }
        Ok(es)
    }

    /// Renders the template for the FSM `name` (see [`spec_render`]).
    pub fn render(&self, name: &str) -> (r: Result<RenderedNames, NamingError>)
        ensures
            match spec_render(self.content@, name@) {
                RenderOutcome::Names(vs) => r matches Ok(names) && names_seq(names) == vs,
                RenderOutcome::Failed(e) => r matches Err(err) && err@ == e,
                RenderOutcome::RenderFailed => r matches Err(err) && err@ is RenderError,
            },
    {
        let context_name = to_upper_camel(name);
        let es = match self.parse_entries() {
            Ok(es) => es,
            Err(e) => { return Err(e); },
        };
        let ghost ev = entries_view(es@);
        if let Some(k) = first_unknown_entry(&es) {
            return Err(NamingError::UnknownKey(string_of(es[k].0.as_slice())));
        }
        if let Some(j) = first_missing_key(&es) {
            return Err(NamingError::MissingKey(required_key(j).to_owned()));
        }
        let mut vs: Vec<String> = Vec::new();
        let mut j: usize = 0;
        while j < 9
            invariant
                ev == entries_view(es@),
                j <= 9,
                required_keys().len() == 9,
                render_keys(ev, context_name@, j as int) == Some(vs@.map_values(|s: String| s@)),
                first_trip(ev, context_name@, j as int) is None,
                context_name@ == upper_camel_case(name@),
                first_unknown(ev, 0) is None,
                first_missing(ev, 0) is None,
                parse_entries(lines(self.content@), lines(self.content@).len() as int) == Ok::<Seq<(Seq<char>, Seq<char>)>, NamingErrorView>(ev),
            decreases 9 - j,
        {
            let key = required_key(j);
            let text = value_for(&es, key);
            match render_value(text.as_str(), context_name.as_str()) {
                Ok(v) => {
                    let ghost before = vs@;
                    vs.push(v);
                    proof { assert(vs@.map_values(|s: String| s@) =~= before.map_values(|s: String| s@).push(v@)); }
                },
                Err(e) => {
                    proof {
                        assert(render_keys(ev, context_name@, j + 1) is None);
                        lemma_render_keys_none(ev, context_name@, j as int + 1, 9);
                        lemma_first_trip_stable(ev, context_name@, j as int + 1, 9);
                        assert(render_keys(ev, upper_camel_case(name@), required_keys().len() as int) is None);
                        assert(first_unknown(ev, 0) is None);
                        assert(first_missing(ev, 0) is None);
                        let ls = lines(self.content@);
                        assert(parse_entries(ls, ls.len() as int) == Ok::<Seq<(Seq<char>, Seq<char>)>, NamingErrorView>(ev));
                        if trips_compiler(text@) {
                            assert(first_trip(ev, context_name@, j + 1) == Some(text@));
                        } else {
                            assert(first_trip(ev, context_name@, j + 1) is None);
                        }
                    }
                    return Err(e);
                },
            }
            j = j + 1;
        }
        let ghost vv = vs@.map_values(|s: String| s@);
        proof {
            lemma_render_keys_len(ev, context_name@, 9);
            assert(vs@.len() == 9);
        }
        let init_state_id_variant = vs.pop().unwrap();
        let state_id_enum = vs.pop().unwrap();
        let state_struct = vs.pop().unwrap();
        let action_trait = vs.pop().unwrap();
        let event_enum = vs.pop().unwrap();
        let event_params_trait = vs.pop().unwrap();
        let module_template = vs.pop().unwrap();
        let fsm_inner = vs.pop().unwrap();
        let fsm = vs.pop().unwrap();
        let module = to_snake(module_template.as_str());
        let names = RenderedNames {
            fsm,
            fsm_inner,
            module,
            event_params_trait,
            event_enum,
            action_trait,
            state_struct,
            state_id_enum,
            init_state_id_variant,
        };
        proof {
            assert(names_seq(names) =~= vv.update(2, snake_case(vv[2])));
        }
        Ok(names)
    }
}

/// Line `i` of `ls` is malformed: not blank and without `=`.
pub open spec fn malformed_at(ls: Seq<Seq<char>>, i: int) -> bool {
    parse_line(ls[i]) matches Some(Err(_))
}

/// Line `i` of `ls` sets `key`.
pub open spec fn sets_key(ls: Seq<Seq<char>>, i: int, key: Seq<char>) -> bool {
    parse_line(ls[i]) matches Some(Ok(kv)) && kv.0 == key
}

/// Reading the `key = value` lines of a naming template: the first non-blank line without `=`
/// is reported, trimmed; otherwise the entries are those of the non-blank lines, each key's
/// value being that of the last line that sets it (an earlier one is silently overridden),
/// and blank lines add nothing.
pub proof fn law_naming_entries(ls: Seq<Seq<char>>)
    ensures
        match parse_entries(ls, ls.len() as int) {
            Err(e) => exists|i: int| {
                &&& 0 <= i < ls.len()
                &&& #[trigger] malformed_at(ls, i)
                &&& e == NamingErrorView::MalformedLine(trim(ls[i]))
                &&& forall|j: int| 0 <= j < i ==> !#[trigger] malformed_at(ls, j)
            },
            Ok(es) => {
                &&& forall|i: int| 0 <= i < ls.len() ==> !#[trigger] malformed_at(ls, i)
                &&& forall|k: int| 0 <= k < es.len() ==> exists|i: int| 0 <= i < ls.len() && #[trigger] parse_line(ls[i]) == Some(Ok::<(Seq<char>, Seq<char>), Seq<char>>(#[trigger] es[k]))
                &&& forall|key: Seq<char>| #[trigger] has_key(es, key) ==> exists|i: int| {
                    &&& 0 <= i < ls.len()
                    &&& parse_line(ls[i]) == Some(Ok::<(Seq<char>, Seq<char>), Seq<char>>((key, value_of(es, key))))
                    &&& forall|j: int| i < j < ls.len() ==> !#[trigger] sets_key(ls, j, key)
                }
            },
        },
{
    lemma_naming_entries(ls, ls.len() as int);
}

/// [`law_naming_entries`] for the first `n` lines.
proof fn lemma_naming_entries(ls: Seq<Seq<char>>, n: int)
    requires
        0 <= n <= ls.len(),
    ensures
        match parse_entries(ls, n) {
            Err(e) => exists|i: int| {
                &&& 0 <= i < n
                &&& #[trigger] malformed_at(ls, i)
                &&& e == NamingErrorView::MalformedLine(trim(ls[i]))
                &&& forall|j: int| 0 <= j < i ==> !#[trigger] malformed_at(ls, j)
            },
            Ok(es) => {
                &&& forall|i: int| 0 <= i < n ==> !#[trigger] malformed_at(ls, i)
                &&& forall|k: int| 0 <= k < es.len() ==> exists|i: int| 0 <= i < n && #[trigger] parse_line(ls[i]) == Some(Ok::<(Seq<char>, Seq<char>), Seq<char>>(#[trigger] es[k]))
                &&& forall|key: Seq<char>| #[trigger] has_key(es, key) ==> exists|i: int| {
                    &&& 0 <= i < n
                    &&& parse_line(ls[i]) == Some(Ok::<(Seq<char>, Seq<char>), Seq<char>>((key, value_of(es, key))))
                    &&& forall|j: int| i < j < n ==> !#[trigger] sets_key(ls, j, key)
                }
            },
        },
    decreases n,
{
    if n > 0 {
        lemma_naming_entries(ls, n - 1);
        let last = n - 1;
        match parse_entries(ls, n - 1) {
            Err(e) => {},
            Ok(es0) => {
                match parse_line(ls[last]) {
                    Some(Err(t)) => {
                        assert(malformed_at(ls, last));
                    },
                    None => {
                        assert(!malformed_at(ls, last));
                        assert forall|key: Seq<char>| #[trigger] has_key(es0, key) implies exists|i: int| {
                            &&& 0 <= i < n
                            &&& parse_line(ls[i]) == Some(Ok::<(Seq<char>, Seq<char>), Seq<char>>((key, value_of(es0, key))))
                            &&& forall|j: int| i < j < n ==> !#[trigger] sets_key(ls, j, key)
                        } by {
                            let i = choose|i: int| {
                                &&& 0 <= i < n - 1
                                &&& parse_line(ls[i]) == Some(Ok::<(Seq<char>, Seq<char>), Seq<char>>((key, value_of(es0, key))))
                                &&& forall|j: int| i < j < n - 1 ==> !#[trigger] sets_key(ls, j, key)
                            };
                            assert(!sets_key(ls, last, key));
                        }
                    },
                    Some(Ok(kv)) => {
                        let es = es0.push(kv);
                        assert(!malformed_at(ls, last));
                        assert forall|k: int| 0 <= k < es.len() implies exists|i: int| 0 <= i < n && #[trigger] parse_line(ls[i]) == Some(Ok::<(Seq<char>, Seq<char>), Seq<char>>(#[trigger] es[k])) by {
                            if k < es0.len() {
                                assert(es[k] == es0[k]);
                            } else {
                                assert(parse_line(ls[last]) == Some(Ok::<(Seq<char>, Seq<char>), Seq<char>>(es[k])));
                            }
                        }
                        assert forall|key: Seq<char>| #[trigger] has_key(es, key) implies exists|i: int| {
                            &&& 0 <= i < n
                            &&& parse_line(ls[i]) == Some(Ok::<(Seq<char>, Seq<char>), Seq<char>>((key, value_of(es, key))))
                            &&& forall|j: int| i < j < n ==> !#[trigger] sets_key(ls, j, key)
                        } by {
                            assert(es.drop_last() =~= es0);
                            if kv.0 == key {
                                assert(value_of(es, key) == kv.1);
                                assert(parse_line(ls[last]) == Some(Ok::<(Seq<char>, Seq<char>), Seq<char>>((key, value_of(es, key)))));
                            } else {
                                assert(value_of(es, key) == value_of(es0, key));
                                let k = choose|k: int| 0 <= k < es.len() && (#[trigger] es[k]).0 == key;
                                assert(k < es0.len());
                                assert(es0[k] == es[k]);
                                assert(has_key(es0, key));
                                let i = choose|i: int| {
                                    &&& 0 <= i < n - 1
                                    &&& parse_line(ls[i]) == Some(Ok::<(Seq<char>, Seq<char>), Seq<char>>((key, value_of(es0, key))))
                                    &&& forall|j: int| i < j < n - 1 ==> !#[trigger] sets_key(ls, j, key)
                                };
                                assert(!sets_key(ls, last, key));
                            }
                        }
                    },
                }
            },
        }
    }
}

/// A malformed line makes every longer prefix of the lines malformed.
proof fn lemma_parse_entries_err(ls: Seq<Seq<char>>, n: int, m: int)
    requires
        n <= m,
        parse_entries(ls, n) is Err,
    ensures
        parse_entries(ls, m) == parse_entries(ls, n),
    decreases m - n,
{
    if n < m {
        lemma_parse_entries_err(ls, n, m - 1);
    }
}

/// Rendering `n` keys gives `n` values.
proof fn lemma_render_keys_len(es: Seq<(Seq<char>, Seq<char>)>, value: Seq<char>, n: int)
    requires
        0 <= n,
    ensures
        render_keys(es, value, n) matches Some(vs) ==> vs.len() == n,
    decreases n,
{
    if n > 0 {
        lemma_render_keys_len(es, value, n - 1);
    }
}

/// Once rendering fails, it fails for every longer prefix of the keys.
proof fn lemma_render_keys_none(es: Seq<(Seq<char>, Seq<char>)>, value: Seq<char>, n: int, m: int)
    requires
        n <= m,
        render_keys(es, value, n) is None,
    ensures
        render_keys(es, value, m) is None,
    decreases m - n,
{
    if n < m {
        lemma_render_keys_none(es, value, n + 1, m);
    }
}

/// Once rendering has failed, the first refused value no longer changes.
proof fn lemma_first_trip_stable(es: Seq<(Seq<char>, Seq<char>)>, value: Seq<char>, n: int, m: int)
    requires
        0 <= n <= m,
        render_keys(es, value, n) is None,
    ensures
        first_trip(es, value, m) == first_trip(es, value, n),
    decreases m - n,
{
    if n < m {
        lemma_first_trip_stable(es, value, n, m - 1);
        lemma_render_keys_none(es, value, n, m - 1);
    }
}

/// The position of the first entry whose key is not required (see [`first_unknown`]).
fn first_unknown_entry(es: &Vec<(Vec<char>, Vec<char>)>) -> (r: Option<usize>)
    ensures
        match r {
            Some(k) => first_unknown(entries_view(es@), 0) == Some(k as int) && k < es@.len(),
            None => first_unknown(entries_view(es@), 0) is None,
        },
{
    let ghost ev = entries_view(es@);
    let mut i: usize = 0;
    while i < es.len()
        invariant
            ev == entries_view(es@),
            i <= es@.len(),
            first_unknown(ev, 0) == first_unknown(ev, i as int),
        decreases es@.len() - i,
    {
        proof { assert(ev[i as int] == (es@[i as int].0@, es@[i as int].1@)); }
        if !is_required_key(&es[i].0) {
            return Some(i);
        }
        i = i + 1;
    }
    None
}

/// Whether `key` is one of the required keys.
fn is_required_key(key: &Vec<char>) -> (r: bool)
    ensures
        r == required_keys().contains(key@),
{
    let mut j: usize = 0;
    while j < 9
        invariant
            j <= 9,
            required_keys().len() == 9,
            forall|q: int| 0 <= q < j ==> required_keys()[q] != key@,
        decreases 9 - j,
    {
        let k = chars_of(required_key(j));
        if same_chars(&k, key) {
            assert(required_keys()[j as int] == key@);
            return true;
        }
        j = j + 1;
    }
    false
}

/// Whether some entry sets `key`.
fn entry_has_key(es: &Vec<(Vec<char>, Vec<char>)>, key: &Vec<char>) -> (r: bool)
    ensures
        r == has_key(entries_view(es@), key@),
{
    let ghost ev = entries_view(es@);
    let mut i: usize = 0;
    while i < es.len()
        invariant
            ev == entries_view(es@),
            i <= es@.len(),
            forall|q: int| 0 <= q < i ==> ev[q].0 != key@,
        decreases es@.len() - i,
    {
        proof { assert(ev[i as int] == (es@[i as int].0@, es@[i as int].1@)); }
        if same_chars(&es[i].0, key) {
            return true;
        }
        i = i + 1;
    }
    false
}

/// The position of the first required key no entry sets (see [`first_missing`]).
fn first_missing_key(es: &Vec<(Vec<char>, Vec<char>)>) -> (r: Option<usize>)
    ensures
        match r {
            Some(j) => first_missing(entries_view(es@), 0) == Some(j as int) && j < required_keys().len(),
            None => first_missing(entries_view(es@), 0) is None,
        },
{
    let ghost ev = entries_view(es@);
    let mut j: usize = 0;
    while j < 9
        invariant
            ev == entries_view(es@),
            j <= 9,
            required_keys().len() == 9,
            first_missing(ev, 0) == first_missing(ev, j as int),
        decreases 9 - j,
    {
        let k = chars_of(required_key(j));
        if !entry_has_key(es, &k) {
            return Some(j);
        }
        j = j + 1;
    }
    None
}

/// The value of the last entry that sets `key` (see [`value_of`]).
fn value_for(es: &Vec<(Vec<char>, Vec<char>)>, key: &str) -> (r: String)
    ensures
        r@ == value_of(entries_view(es@), key@),
{
    let k = chars_of(key);
    let ghost ev = entries_view(es@);
    let mut i: usize = es.len();
    proof { assert(ev.take(i as int) =~= ev); }
    while i > 0
        invariant
            ev == entries_view(es@),
            i <= es@.len(),
            k@ == key@,
            value_of(ev, key@) == value_of(ev.take(i as int), key@),
        decreases i,
    {
        proof {
            assert(ev.take(i as int).drop_last() =~= ev.take(i - 1));
            assert(ev.take(i as int).last() == (es@[i - 1].0@, es@[i - 1].1@));
        }
        if same_chars(&es[i - 1].0, &k) {
            return string_of(es[i - 1].1.as_slice());
        }
        i = i - 1;
    }
    proof { assert(ev.take(0) =~= Seq::<(Seq<char>, Seq<char>)>::empty()); }
    String::new()
}

/// Renders the template `text` with the name `value` (see [`rendered_value`]).
fn render_value(text: &str, value: &str) -> (r: Result<String, NamingError>)
    ensures
        match r {
            Ok(s) => rendered_value(text@, value@) == Some(s@),
            Err(e) => rendered_value(text@, value@) is None && e@ is RenderError
                && (trips_compiler(text@) ==> e@ == NamingErrorView::RenderError(refusal_message(text@))),
        },
{
    if trips_compiler_check(&chars_of(text)) {
        return Err(NamingError::RenderError(concat("Unsupported template text: ", text)));
    }
    let mut tt = template_registry();
    match add_template(&mut tt, "value", text) {
        Err(e) => Err(NamingError::RenderError(e)),
        Ok(()) => {
            proof {
                assert(registered_templates(tt).dom() =~= set!["value"@]);
                assert(registered_templates(tt)["value"@] == text@);
            }
            match render_template(&tt, "value", value) {
                Ok(s) => Ok(s),
                Err(e) => Err(NamingError::RenderError(e)),
            }
        },
    }
}

} // verus!
