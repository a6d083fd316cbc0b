# rustful

The core of a light HTTP framework, with its behaviour stated in contracts
and proved with Verus.

## Layout

- `src/` is the verified library:
  - `router/`: the tree router (insertion, merging, prefixing, endpoint
    search, hyperlinks), method routers and route state;
  - `context/`: strings that may be UTF-8, request parameters, URI paths
    and hyperlinks with their order;
  - `server/instance.rs`: taking request URIs apart, thread counts and
    keep-alive decisions;
  - `filter.rs`, `filter_stack.rs`: filter results and the filter stacks
    that decide which filter is called next and what comes out;
  - `file.rs`: media types by file extension from a `mime.types` table;
  - `body.rs`: request bodies that arrive in chunks;
  - `handler/`, `plugin.rs`, `response.rs`, `utils.rs`, `method.rs`,
    `file_loader.rs`: handler composition, response data, query strings,
    methods.
- `app/` is what runs around it: the server on hyper, filters and handlers
  that users write, file I/O, threads and logging.
- `tests/` runs the library on concrete values.
