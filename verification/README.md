# downmanager

A command-line download manager that fetches a file over several parallel
HTTP range requests when the server allows it, and as one stream otherwise.

- `src/` is the verified library: command-line parsing, the progress
  display's text, splitting a file into byte ranges, reading `Content-Range`,
  `Accept-Ranges` and `Content-Disposition` headers, batching received bytes
  at their file positions, retrying busy servers, and the progress record.
- `app/` runs the program: the network requests, the files, the terminal,
  and the floating-point speed and percentage shown to the user.
