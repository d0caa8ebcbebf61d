# wirt

The logic of a small web site's server, verified with Verus.

- `src/` is the verified library: reading requests (`reader`, `http`,
  `route`), response heads (`response`), blog posts (`blog`), formula
  words (`math`), and the feed of watched pages (`feed`, `feed_sort`,
  `feed_page`, `site_hash`), with the laws that tie them together
  (`feed_laws`, `reader_laws` and the `lemma_` functions of each module).
- `app/` is the program around it: the network loop, the files, the
  fetching of watched pages, and the typesetting of formulas, whose
  coordinates are floating-point numbers.
