# php_iter_tools

Lazy iterators over PHP arrays, with the adapters and consumers of Rust's
`Iterator` (`map`, `filter`, `zip`, `step_by`, `rev`, `fold`, `max`, `cmp`, ...),
verified with Verus.

Layout:

- `src/` — the verified library.
  - `value.rs`: PHP values (`ZVal`) and their model (`Value`), PHP's `===`.
  - `order.rs`: PHP's ordering of values as `min`, `max` and `cmp` use it.
  - `model.rs`: the sequence model of pipelines and of the callbacks.
  - `source.rs`: the iterator over an array's values.
  - `pipe.rs`: the pipeline of adapters, taken from the front, the back or by index.
  - `consume.rs`: the consumers that run a pipeline.
  - `kind.rs`: which traversals an iterator supports after each adapter.
  - `iter.rs`: `ArrayIterator`, the class PHP code sees, and `map_array`.
  - `error.rs`: the errors and the PHP exceptions they become.
  - `laws.rs`: properties of the operations taken together.
  - `calls.rs`: `CallLog`, the record of the callback calls an operation makes.
- `tests/` — tests of the library, with Rust closures as callbacks.
- `app/` — the PHP extension built on `ext-php-rs`: zval conversion, the
  callback registry and the `Iter` class.

PHP callbacks are handed to the library as handles (`ZCallable`) together with
a runner that calls them; every contract is stated for any model `g` of the
callbacks that the runner agrees with. The consumers that run a callback of
their own (`for_each`, `fold`, `all`, `partition`, `max_by_key`, ...) also take
a `CallLog` and state which calls they made, in order; `inspect` and
`skip_while` record the calls of their stage, which every operation that
takes elements reports through `inspection` and `skipping`.
