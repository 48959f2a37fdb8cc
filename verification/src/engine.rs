//! The template engine, as far as the library calls it.

use vstd::prelude::*;

verus! {

/// `minijinja::Environment`: the templates that the engine knows, and how it
/// loads more. The library hands it on and never looks inside.
#[verifier::external_type_specification]
#[verifier::external_body]
pub struct ExEnvironment<'source>(minijinja::Environment<'source>);

/// `minijinja::Template`: a template that was found in an environment.
#[verifier::external_type_specification]
#[verifier::external_body]
pub struct ExTemplate<'env: 'source, 'source>(minijinja::Template<'env, 'source>);

/// `minijinja::Error`: why the engine could not find or render a template.
#[verifier::external_type_specification]
#[verifier::external_body]
pub struct ExEngineError(minijinja::Error);

/// `minijinja::Environment::get_template`: looks a template up by name. It
/// may come from those added to the environment or from its loader, so
/// nothing is claimed of the outcome.
#[verifier::external_body]
pub(crate) fn get_template<'env>(env: &'env minijinja::Environment<'_>, name: &str) -> (found:
    Result<minijinja::Template<'env, 'env>, minijinja::Error>) {
    env.get_template(name)
}

/// `minijinja::Template::render_to_write`: renders a template into a buffer
/// of bytes, with an empty context, built as the engine's `context` macro
/// builds one without arguments. What comes out depends on the template and
/// on all that it draws from its environment, so nothing is claimed of it.
#[verifier::external_body]
#[allow(deprecated)]
pub(crate) fn render_to_write(template: &minijinja::Template<'_, '_>) -> (rendered: Result<
    Vec<u8>,
    minijinja::Error,
>) {
    let mut buffer: Vec<u8> = Vec::new();
    let context = minijinja::__context::build(minijinja::__context::make());
    match template.render_to_write(context, &mut buffer) {
        Ok(_) => Ok(buffer),
        Err(error) => Err(error),
    }
}

/// The `Display` of `minijinja::Error`: the text that describes an error of
/// the engine. Nothing is claimed of the text.
#[verifier::external_body]
pub(crate) fn describe(error: &minijinja::Error) -> (text: String) {
    error.to_string()
}

/// Renders the template called `name` in `env` with an empty context. Gives
/// the bytes that came out, or the engine's description of what went wrong.
pub(crate) fn render_template(env: &minijinja::Environment<'_>, name: &str) -> (rendered: Result<
    Vec<u8>,
    String,
>) {
    match get_template(env, name) {
        Ok(template) => match render_to_write(&template) {
            Ok(bytes) => Ok(bytes),
            Err(error) => Err(describe(&error)),
        },
        Err(error) => Err(describe(&error)),
    }
}

} // verus!
