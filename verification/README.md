# uni

A retained user-interface document and everything that is computed from it, verified with Verus.

Every change to a document is a logged mutation with an author: a person, an assistant or the
system. All views of it are functions of the document and the state.

* `src/` is the verified library.
  * The document: `value`, `node`, `ir`, `undo`, `diff`, `coherence`, `audit`, `wire`.
  * Languages that describe one: `dsl_token`, `dsl_syntax`, `dsl`, `flutter_import`,
    `slint_import`, `swiftui_import`, on top of `text`, `utf8`, `scan` and `lowering`.
  * State: `store`, `expr`, `resolve`, `react`.
  * What is shown: `env`, `layout`, `paint`, `scene`, `color`, `blur`, `canvas`, `png`, `frame`,
    `a11y`.
  * What happens: `input`, `gesture`, `animation`, `runtime`, `motion`, `touch`, `session`, `host`,
    `window`.
  * The `*_law` modules state what holds of all of it, as public proof functions named `law_..`.
* `tests/` runs the library.
* `app/` is ordinary Rust around it: floating point, the layout engine, a window with a graphics
  processor, assistive technology, JSON.

Floating-point numbers are kept by their bits. Whoever calls the library hands it the arithmetic,
the layout engine, the handlers of actions and the physics of springs as functions; the contracts
say what is asked of them and what is made of their answers.
