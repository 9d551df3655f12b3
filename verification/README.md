# txget

Extracts questions and reference answers from exported `questionData.js` pages and writes them
as Markdown documents, one for each set of questions, and as PDF if wanted.

- The input is a directory, a single `questionData.js` file, or a `.zip` or `.7z` archive.
- HTML is cleaned up; questions, candidate answers and analysis are taken out and listed by
  section: reading aloud, translation, questions and answers, retelling, and all others.
- Analysis and source path are left out unless they are asked for.

## Layout

`src/` is the library, written and verified in Verus:

| module      | what it does                                                        |
|-------------|---------------------------------------------------------------------|
| `text`      | comparing, searching, trimming, ordering and joining texts          |
| `sorting`   | stable sorting, stated on sequences, with its laws                  |
| `json`      | JSON values as plain trees                                          |
| `patterns`  | the regular expressions and other conversions of text               |
| `page`      | from the raw text of a page to its entries                          |
| `answers`   | choosing the shortest distinct answers                              |
| `classify`  | telling the kinds of questions apart                                |
| `retelling` | questions whose text and answer are the wrong way round             |
| `entry`     | one extracted question                                              |
| `render`    | the Markdown of an entry                                            |
| `sections`  | the sections of a group and its document                            |
| `groups`    | collecting entries by group, naming the files                       |
| `paths`     | names that are taken from paths, and names for files                |
| `archive`   | what an input is, and where an archive may write                    |
| `layout`    | the layout of a Markdown document as printing steps                 |
| `fonts`     | which fonts to look for                                             |
| `args`      | the options                                                         |

`app/` is the command line program around it: arguments, files, archives and the PDF printer.
`tests/` holds the tests.

## Usage

```bash
txget                                   # scan the current directory, write qa_output.md
txget -f archive.zip -o output.md       # read an archive
txget -f some/dir --include-analysis    # with the analysis of each question
txget -f questionData.js --pdf          # one page, Markdown and PDF
```
