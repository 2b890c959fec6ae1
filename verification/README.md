# xc_ocr

A local OCR and document-rendering toolkit: images are recognised with
PaddleOCR models on ONNX Runtime, DOCX and PDF documents are turned into page
images with pandoc, wkhtmltoimage/wkhtmltopdf and Ghostscript.

## Layout

- `src/` — the verified library (Verus). Page geometry of DOCX files, the
  fix for run-less paragraphs in `word/document.xml` and the rewriting of the
  DOCX package, where converters are looked for and in which order they are
  tried, their command lines, the HTML adjustments, the order of the page
  files Ghostscript writes, data URLs, fonts and embedded images, text and
  table layout, CTC decoding of recognition output, and the choice of model
  files and variants.
- `app/` — the command-line program around it: files, processes, the ONNX
  Runtime sessions and the floating-point image work of detection and
  recognition, drawing with imageproc.
- `tests/` — tests of the library on concrete values.

## Rendering DOCX documents

Every page of a document becomes an image.  When pandoc, wkhtmltopdf and
Ghostscript are all found, the document goes through HTML and PDF, and
Ghostscript writes one PNG per page (`page-1.png`, `page-2.png`, ...),
read back in page order.  Only when that route is not available (or
fails) is the HTML rendered with wkhtmltoimage, which gives the whole
document as one image.  Earlier versions tried wkhtmltoimage first and
kept only the first page of the PDF.
