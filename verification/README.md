# session_usage

A verified library that reads what coding assistants leave on a machine: the token
usage of their sessions, the sessions themselves, and the MCP servers that they are
configured with. It covers Antigravity (Gemini), CodeBuddy, WorkBuddy, Qoder and
Qoder CN.

The library never touches a disk or a database. It takes bytes,
texts and rows, and says what is to be written.

| Module | What it holds |
| --- | --- |
| `wire`, `antigravity`, `files` | protobuf fields, the conversation databases of Antigravity |
| `traces`, `codebuddy`, `workbuddy` | trace files of CodeBuddy and WorkBuddy |
| `codebuddy_logs`, `estimate`, `walks` | logs of the CodeBuddy CN IDE and the messages they refer to |
| `qoder`, `qodercn`, `session_files`, `money` | sessions of Qoder and Qoder CN |
| `usage` | the ledger: which records are new, and the rows they give |
| `sessions` | listing, reading and deleting sessions |
| `mcp`, `entries`, `alike` | MCP servers: reading, merging and writing them |
| `json`, `text`, `tags`, `clock`, `patterns`, `maps`, `paths`, `order` | what the others share |

Every function states in its contract what it returns. What holds of several
functions together stands in public proof functions named `law_...`: that syncing
again imports nothing, that no call of a turn is lost whichever pass sees it, that a
message that was written is read back field by field, that the servers of written
MCP files are read back where the files can be read at all, that no other key of a
settings file changes, and so on.

`app/` is the ordinary Rust around it: SQLite, files, and the walk over directories.
