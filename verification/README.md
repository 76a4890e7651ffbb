# italic

The verified core of a zero-config static site generator for digital
gardens: Markdown notes with wikilinks, backlinks, collections, taxonomies,
archives and feeds.

`src/` is the library, written in Verus and proved against its contracts:

- `config` — the typed `config.yaml`, theme layering, URL field normalisation.
- `yaml`, `frontmatter` — YAML values as plain data; splitting frontmatter.
- `doc`, `doc_index`, `index` — docs, their uplifted metadata, and the stores
  that hold them with their collections, taxonomies and link graph.
- `query`, `order`, `listing`, `backlinks` — queries and stable listings.
- `related` — which docs a related-pages listing scores (the float scores
  themselves are computed in `app/`).
- `defaults` — default frontmatter filled into collection members.
- `archive`, `generator` — archive headers, built-in sitemap/feed, pagination.
- `wikilink`, `wikitext`, `hashtag` — wikilink resolution and inline hashtags.
- `permalink`, `url`, `paths`, `alias`, `output` — output paths, URLs,
  redirect stubs and the first-writer-wins write plan.
- `html`, `templates`, `entries`, `livereload`, `site_data` — escaping,
  excerpts, template naming and macro imports, the `entries` filter's key
  order, live-reload injection, data files.
- `laws` — properties that span several operations.

`app/` is the command-line program around it: file and network I/O, Tera and
comrak rendering, the dev server and the watcher.
