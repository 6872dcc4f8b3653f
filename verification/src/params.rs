//! Build-parameter data: the closed set of parameter kinds, the schema entry
//! a job declares for one parameter, and the class-name lookup that maps the
//! server's parameter-definition class names onto the closed set.

use vstd::prelude::*;

verus! {

/// The kinds of build parameters the client understands.
#[derive(Clone, Copy, PartialEq, Eq, Structural, Debug)]
pub enum ParamType {
    String,
    Text,
    Choice,
    Boolean,
    Password,
}

/// A chosen value for one parameter, together with its kind.
#[derive(Debug)]
pub struct ParamInfo {
    pub value: String,
    pub ptype: ParamType,
}

/// The parameter kind assumed when none is declared.
pub fn default_param_type() -> (r: ParamType)
    ensures
        r == ParamType::String,
{
    ParamType::String
}

/// The sentinel standing for "keep the server-side default" in password
/// fields; such entries are never sent.
pub fn default_param_value() -> (r: &'static str)
    ensures
        r@ == "<DEFAULT>"@,
{
    "<DEFAULT>"
}

/// The replacement text shown instead of a password value.
pub fn masked_password() -> (r: &'static str)
    ensures
        r@ == "*******"@,
{
    "*******"
}

/// One parameter of a job's current schema.
#[derive(Debug)]
pub struct JenkinsJobParameter {
    pub param_type: Option<ParamType>,
    pub name: String,
    pub description: Option<String>,
    pub default_value: Option<String>,
    pub choices: Option<Vec<String>>,
    pub trim: Option<bool>,
    pub required: Option<bool>,
    pub credential_type: Option<String>,
    pub project_name: Option<String>,
    pub filter: Option<String>,
}

/// View of an optional string.
pub open spec fn opt_str_view(o: Option<String>) -> Option<Seq<char>> {
    match o {
        None => None,
        Some(s) => Some(s@),
    }
}

/// View of an optional list of strings.
pub open spec fn opt_strs_view(o: Option<Vec<String>>) -> Option<Seq<Seq<char>>> {
    match o {
        None => None,
        Some(v) => Some(Seq::new(v@.len(), |i: int| v@[i]@)),
    }
}

/// The mathematical shape of one schema parameter.
pub ghost struct JobParamView {
    pub param_type: Option<ParamType>,
    pub name: Seq<char>,
    pub description: Option<Seq<char>>,
    pub default_value: Option<Seq<char>>,
    pub choices: Option<Seq<Seq<char>>>,
    pub trim: Option<bool>,
    pub required: Option<bool>,
    pub credential_type: Option<Seq<char>>,
    pub project_name: Option<Seq<char>>,
    pub filter: Option<Seq<char>>,
}

impl View for JenkinsJobParameter {
    type V = JobParamView;

    open spec fn view(&self) -> JobParamView {
        JobParamView {
            param_type: self.param_type,
            name: self.name@,
            description: opt_str_view(self.description),
            default_value: opt_str_view(self.default_value),
            choices: opt_strs_view(self.choices),
            trim: self.trim,
            required: self.required,
            credential_type: opt_str_view(self.credential_type),
            project_name: opt_str_view(self.project_name),
            filter: opt_str_view(self.filter),
        }
    }
}

/// Views of a whole schema.
pub open spec fn schema_views(s: Seq<JenkinsJobParameter>) -> Seq<JobParamView> {
    Seq::new(s.len(), |i: int| s[i]@)
}

/// The parameter kind a definition class name denotes, if any.
pub open spec fn resolve_param_type_spec(name: Seq<char>) -> Option<ParamType> {
    if name == "hudson.model.StringParameterDefinition"@ || name
        == "StringParameterDefinition"@ {
        Some(ParamType::String)
    } else if name == "hudson.model.TextParameterDefinition"@ || name
        == "TextParameterDefinition"@ {
        Some(ParamType::Text)
    } else if name == "hudson.model.ChoiceParameterDefinition"@ || name
        == "ChoiceParameterDefinition"@ {
        Some(ParamType::Choice)
    } else if name == "hudson.model.BooleanParameterDefinition"@ || name
        == "BooleanParameterDefinition"@ {
        Some(ParamType::Boolean)
    } else if name == "hudson.model.PasswordParameterDefinition"@ || name
        == "PasswordParameterDefinition"@ {
        Some(ParamType::Password)
    } else {
        None
    }
}

/// Map a parameter-definition class name, long or short form, onto the
/// closed set of parameter kinds; unknown classes resolve to nothing and the
/// caller skips them.
pub fn resolve_param_type(class_name: Option<&str>) -> (r: Option<ParamType>)
    ensures
        r == match class_name {
            None => None::<ParamType>,
            Some(n) => resolve_param_type_spec(n@),
        },
{
    let n = match class_name {
        None => {
            return None;
        },
        Some(n) => n,
    };
    if crate::text::str_eq(n, "hudson.model.StringParameterDefinition") || crate::text::str_eq(
        n,
        "StringParameterDefinition",
    ) {
        Some(ParamType::String)
    } else if crate::text::str_eq(n, "hudson.model.TextParameterDefinition")
        || crate::text::str_eq(n, "TextParameterDefinition") {
        Some(ParamType::Text)
    } else if crate::text::str_eq(n, "hudson.model.ChoiceParameterDefinition")
        || crate::text::str_eq(n, "ChoiceParameterDefinition") {
        Some(ParamType::Choice)
    } else if crate::text::str_eq(n, "hudson.model.BooleanParameterDefinition")
        || crate::text::str_eq(n, "BooleanParameterDefinition") {
        Some(ParamType::Boolean)
    } else if crate::text::str_eq(n, "hudson.model.PasswordParameterDefinition")
        || crate::text::str_eq(n, "PasswordParameterDefinition") {
        Some(ParamType::Password)
    } else {
        None
    }
}

/// The default value a parsed parameter carries: password defaults are
/// replaced by the sentinel so that secrets never reach history or logs.
pub fn normalize_default_value(param_type: Option<&ParamType>, value: Option<String>) -> (r:
    Option<String>)
    ensures
        match param_type {
            Some(t) => *t == ParamType::Password ==> r is Some && r.unwrap()@ == "<DEFAULT>"@,
            None => r == value,
        },
        !(param_type matches Some(t) && *t == ParamType::Password) ==> r == value,
{
    match param_type {
        Some(t) => {
            if *t == ParamType::Password {
                Some(String::from_str(default_param_value()))
            } else {
                value
            }
        },
        None => value,
    }
}

/// The value an entered text denotes for a parameter: trimmed exactly when
/// the schema declares the trim flag.
pub fn normalize_input_value(text: &str, trim: Option<bool>) -> (r: String)
    ensures
        trim == Some(true) ==> r@ == crate::text::trim_spec(text@),
        trim != Some(true) ==> r@ == text@,
{
    if trim == Some(true) {
        let v = crate::text::chars_of(text);
        let t = crate::text::trim_of(&v);
        crate::text::string_from_chars(&t)
    } else {
        String::from_str(text)
    }
}

/// The value an entered password denotes: empty input keeps the declared
/// default.
pub fn password_value(entered: String, default_value: &str) -> (r: String)
    ensures
        entered@.len() == 0 ==> r@ == default_value@,
        entered@.len() > 0 ==> r == entered,
{
    if entered.as_str().unicode_len() == 0 {
        String::from_str(default_value)
    } else {
        entered
    }
}

/// The parameter text of a yes/no answer.
pub fn boolean_text(value: bool) -> (r: &'static str)
    ensures
        value ==> r@ == "true"@,
        !value ==> r@ == "false"@,
{
    if value {
        "true"
    } else {
        "false"
    }
}

} // verus!
