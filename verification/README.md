# Serde 6570

URI templates that are filled with values, and that values are read back with.

A template such as `https://example.com/user/{user}/post/{post_id}` stands for a family of URIs. It
is *expanded* from a value to a URI, and a URI is *contracted* to the values of its variables. The
same template also gives a route for a router, a regular expression for its URIs, and shorter
templates once some of its variables have values.

## Layout

- `src/` is the library. Everything in it is written in Verus and proved against its contracts.
  - `grammar`, `parser`, `render`: templates, taken apart and written down again
  - `value`, `serializer`, `ser`, `escape`: from values to URIs
  - `form`, `binding`, `de`, `deserializer`, `primitive`: from URIs to values
  - `single`, `cached`, `given`, `policy`, `extract`: what is done with a template
  - `backend`, `writable`: what comes from the crates for regular expressions and for IRIs
  - `laws`, `pieces`, `round_trip`, `reading`: what holds of the library as a whole
- `app/` puts serde, axum, the contexts of the IRI crate and a cache for the whole program around the
  library.
- `tests/` runs the library on examples.

## What is proved

Each function states what it returns for every input that it takes. Beyond that, a template is
written as it was read, prefixes add up, a fill leaves no variable that has a value, and the values
that a template was expanded with are what contracting the URI gives: see
`reading::law_expanded_is_read_back` and the contract of `Serde6570::contract`. The regular
expression of a template matches the URIs that the template writes: see
`reading::law_regex_matches_what_is_expanded` and the contract of `Serde6570::regex`.

It does so, as `reading::is_matched` says, where in the authority and the path each expression writes
all its variables, or is one such as `{x}` that writes nothing, and where no value but one at the end
of the path holds a character at which the group for it ends. `/a{/b}` does not match `/a`.

The values are read back where a template can tell them from one another, which
`reading::is_readable` says:

- Every variable has a value of its kind: one text, unless it is exploded, or a list, unless it is
  cut, or pairs, where it is exploded. None of them is in the fragment.
- In the authority and the path, each variable has a plain name, with which it stands once as it is
  and once for each length to which it is cut, and something behind it tells where its value ends:
  the end of the path, or a literal that ends the path or holds a character that cannot stand in the
  value. `{.x}` cannot tell a dot in a value from the end of the value, nor can `{+x}z{y}` tell a
  `z`.
- An exploded variable stands once. It has pairs if it was named as the one that takes the
  parameters that no other names, and else a list.
- The query begins with `{?x}` or with parameters of its own, and goes on with `{&y}` and with more of
  its own. The names of its variables, and those of pairs, hold nothing that is decoded or that ends
  a name, and no parameter of its own has one of them.

What is read of a text is as much as the template writes of it: of `example`, `/{x:3}` gives `exa`. A
list that is not exploded is read as one text with commas between the items, and is split again for
a field that wants a sequence.
