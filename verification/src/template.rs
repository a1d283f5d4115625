//! The template engine behind the environment and argument rendering.

use vstd::prelude::*;

verus! {

/// Relies on tera's one-off template rendering: the template is
/// registered under the given name and rendered against the key/value
/// context, and a failure comes back as its user-facing text. Nothing is
/// assumed of the outcome; templates may read the clock.
#[verifier::external_body]
pub fn render_template(name: &str, context: &Vec<(String, String)>, raw_value: &str) -> Result<
    String,
    String,
> {
    let mut tera: tera::Tera = Default::default();
    let mut internal_context = tera::Context::new();
    if let Err(e) = tera.add_raw_template(name, raw_value) {
        return Err(format!("{}", e));
    }
    for entry in context.iter() {
        internal_context.insert(entry.0.clone(), &entry.1);
    }
    tera.render(name, &internal_context).map_err(|e| format!("{}", e))
}

} // verus!
